//! How values are read.

use crate::meta::{
    is_plan, lemma_run, run_at, run_end, run_size, run_start, static_fields_are_in_a_run,
    total_size, FieldRun, TypeMeta,
};
use crate::record::RecordingReader;
use crate::schema::{
    field_fits, field_metas, fields_fit, fits, lemma_vals_push, metas_of, size_of, vals,
    DynamicByte, FieldSchema, Schema, Val, Value,
};
use crate::text::opt_text;
use crate::wire::{int_at, lemma_int_at, take_int, Encoding, ReadError, Width};
use vstd::prelude::*;

verus! {

/// What becomes of reading a value: the position behind it, the windows that are opened for
/// it, and the value.
pub ghost struct Decoded {
    pub pos: int,
    pub windows: Seq<usize>,
    pub value: Result<Val, ReadError>,
}

/// What becomes of reading values one behind the other: those that are read, and why no more
/// of them are where that is so.
pub ghost struct Several {
    pub pos: int,
    pub windows: Seq<usize>,
    pub values: Seq<Val>,
    pub error: Option<ReadError>,
}

/// Nothing is opened, and the value is read or not.
pub open spec fn plain(pos: int, value: Result<Val, ReadError>) -> Decoded {
    Decoded { pos, windows: seq![], value }
}

/// The byte at a position, and the position behind it.
pub open spec fn byte_at(buffer: Seq<u8>, pos: int) -> (int, Result<u8, ReadError>) {
    if pos < buffer.len() {
        (pos + 1, Ok(buffer[pos]))
    } else {
        (pos, Err(ReadError::UnexpectedEnd))
    }
}

/// The `bool` of a byte.
pub open spec fn bool_of(byte: u8) -> Result<Val, ReadError> {
    if byte == 0 {
        Ok(Val::Bool(false))
    } else if byte == 1 {
        Ok(Val::Bool(true))
    } else {
        Err(ReadError::InvalidBool(byte))
    }
}

/// What becomes of the values as those of a list.
pub open spec fn as_list(several: Several) -> Decoded {
    Decoded {
        pos: several.pos,
        windows: several.windows,
        value: match several.error {
            None => Ok(Val::List(several.values)),
            Some(error) => Err(error),
        },
    }
}

/// What becomes of the values as those of fields.
pub open spec fn as_struct(several: Several) -> Decoded {
    Decoded {
        pos: several.pos,
        windows: several.windows,
        value: match several.error {
            None => Ok(Val::Struct(several.values)),
            Some(error) => Err(error),
        },
    }
}

/// What becomes of a value that there is.
pub open spec fn as_just(decoded: Decoded) -> Decoded {
    Decoded {
        pos: decoded.pos,
        windows: decoded.windows,
        value: match decoded.value {
            Ok(value) => Ok(Val::Just(Box::new(value))),
            Err(error) => Err(error),
        },
    }
}

/// Whether the position is one that reading from `pos` can come to.
pub open spec fn is_ahead(buffer: Seq<u8>, pos: int, next: int) -> bool {
    pos <= next <= buffer.len()
}

/// Values that are read, and what becomes of the next.
pub open spec fn then_next(before: Several, next: Decoded) -> Several {
    Several {
        pos: next.pos,
        windows: before.windows + next.windows,
        values: match next.value {
            Ok(value) => before.values.push(value),
            Err(_) => before.values,
        },
        error: match next.value {
            Ok(_) => None,
            Err(error) => Some(error),
        },
    }
}

/// What becomes of reading a value of the type at a position, where `root` is the outermost
/// declaration. A declaration opens a window for each run of static fields; any other static
/// value opens none.
pub open spec fn decoded(
    schema: Schema,
    root: Schema,
    encoding: Encoding,
    buffer: Seq<u8>,
    pos: int,
) -> Decoded
    decreases buffer.len() - pos, schema, 0nat,
{
    match schema {
        Schema::Unit => plain(pos, Ok(Val::Unit)),
        Schema::Bool => match byte_at(buffer, pos) {
            (next, Ok(byte)) => plain(next, bool_of(byte)),
            (next, Err(error)) => plain(next, Err(error)),
        },
        Schema::Int(width) => match int_at(buffer, pos, width, encoding) {
            (next, Ok(n)) => plain(next, Ok(Val::Int(n))),
            (next, Err(error)) => plain(next, Err(error)),
        },
        Schema::DynamicByte => match byte_at(buffer, pos) {
            (next, Ok(byte)) => plain(next, Ok(Val::Byte(byte))),
            (next, Err(error)) => plain(next, Err(error)),
        },
        Schema::ByteRef => match byte_at(buffer, pos) {
            (next, Ok(byte)) => plain(next, Ok(Val::Borrowed { byte, at: pos })),
            (next, Err(error)) => plain(next, Err(error)),
        },
        Schema::Foreign(_) => plain(pos, Err(ReadError::Unreadable)),
        Schema::Array(element, len) => {
            let list = as_list(
                decoded_items(*element, root, encoding, buffer, pos, len as nat),
            );
            if size_of(*element, encoding) is Some {
                plain(list.pos, list.value)
            } else {
                list
            }
        },
        Schema::Optional(inner) => match byte_at(buffer, pos) {
            (next, Ok(tag)) => if tag == 0 {
                plain(next, Ok(Val::Nothing))
            } else if tag == 1 {
                as_just(decoded(*inner, root, encoding, buffer, pos + 1))
            } else {
                plain(next, Err(ReadError::InvalidTag(tag)))
            },
            (next, Err(error)) => plain(next, Err(error)),
        },
        Schema::List(element) => match int_at(buffer, pos, Width::U64, encoding) {
            (next, Ok(len)) => if pos < next <= buffer.len() {
                as_list(decoded_items(*element, root, encoding, buffer, next, len))
            } else {
                plain(next, Err(ReadError::UnexpectedEnd))
            },
            (next, Err(error)) => plain(next, Err(error)),
        },
        Schema::Children => match int_at(buffer, pos, Width::U64, encoding) {
            (next, Ok(len)) => if pos < next <= buffer.len() {
                as_list(decoded_items(root, root, encoding, buffer, next, len))
            } else {
                plain(next, Err(ReadError::UnexpectedEnd))
            },
            (next, Err(error)) => plain(next, Err(error)),
        },
        Schema::Struct(fields) => as_struct(
            decoded_fields(fields@, root, encoding, buffer, pos, None, fields@.len()),
        ),
    }
}

/// What becomes of reading `n` values of the type one behind the other.
pub open spec fn decoded_items(
    schema: Schema,
    root: Schema,
    encoding: Encoding,
    buffer: Seq<u8>,
    pos: int,
    n: nat,
) -> Several
    decreases buffer.len() - pos, schema, n,
{
    if n == 0 {
        Several { pos, windows: seq![], values: seq![], error: None }
    } else {
        let before = decoded_items(schema, root, encoding, buffer, pos, (n - 1) as nat);
        if before.error is Some || !is_ahead(buffer, pos, before.pos) {
            before
        } else {
            then_next(before, decoded(schema, root, encoding, buffer, before.pos))
        }
    }
}

/// The context that is left for the field at `i`: fields before it that take it use it up.
pub open spec fn context_left(
    fields: Seq<FieldSchema>,
    context: Option<Seq<char>>,
    i: int,
) -> Option<Seq<char>> {
    if exists|k: int| 0 <= k < i && (#[trigger] fields[k]) is Context {
        None
    } else {
        context
    }
}

/// What becomes of a field that takes the context.
pub open spec fn context_value(pos: int, context: Option<Seq<char>>) -> Decoded {
    match context {
        Some(text) => plain(pos, Ok(Val::Text(text))),
        None => plain(pos, Err(ReadError::MissingContext)),
    }
}

/// What becomes of reading a field with the context that is left for it.
pub open spec fn decoded_field(
    field: FieldSchema,
    root: Schema,
    encoding: Encoding,
    buffer: Seq<u8>,
    pos: int,
    context: Option<Seq<char>>,
) -> Decoded
    decreases buffer.len() - pos, field, 0nat,
{
    match field {
        FieldSchema::Wire(schema) => decoded(schema, root, encoding, buffer, pos),
        FieldSchema::Skipped(value) => plain(pos, Ok(value@)),
        FieldSchema::Context { .. } => context_value(pos, context),
    }
}

/// What becomes of reading the first `n` fields of a declaration with a context. The first
/// field of a run opens a window of the size of the run.
pub open spec fn decoded_fields(
    fields: Seq<FieldSchema>,
    root: Schema,
    encoding: Encoding,
    buffer: Seq<u8>,
    pos: int,
    context: Option<Seq<char>>,
    n: nat,
) -> Several
    decreases buffer.len() - pos, fields, n,
{
    if n == 0 || n > fields.len() {
        Several { pos, windows: seq![], values: seq![], error: None }
    } else {
        let before = decoded_fields(
            fields,
            root,
            encoding,
            buffer,
            pos,
            context,
            (n - 1) as nat,
        );
        if before.error is Some || !is_ahead(buffer, pos, before.pos) {
            before
        } else {
            let metas = metas_of(fields, encoding);
            let opened = opened_at(metas, n - 1, before);
            if runs_out(metas, n - 1, buffer, before.pos) {
                Several { error: Some(ReadError::UnexpectedEnd), ..opened }
            } else {
                let next = decoded_field(
                    fields[n - 1],
                    root,
                    encoding,
                    buffer,
                    before.pos,
                    context_left(fields, context, n - 1),
                );
                then_next(
                    opened,
                    if metas[n - 1] is Static {
                        plain(next.pos, next.value)
                    } else {
                        next
                    },
                )
            }
        }
    }
}

/// Whether a window is opened for the field at `i`.
pub open spec fn opens(metas: Seq<TypeMeta>, i: int) -> bool {
    metas[i] is Static && run_start(metas, i) == i
}

/// The size of the window that is opened for the field at `i`.
pub open spec fn window_size(metas: Seq<TypeMeta>, i: int) -> nat {
    run_size(metas, i, run_end(metas, i))
}

/// What is read before the field at `i`, with the window that is opened for it.
pub open spec fn opened_at(metas: Seq<TypeMeta>, i: int, before: Several) -> Several {
    if opens(metas, i) {
        Several { windows: before.windows.push(window_size(metas, i) as usize), ..before }
    } else {
        before
    }
}

/// Whether the window that is opened for the field at `i` is larger than what is left.
pub open spec fn runs_out(metas: Seq<TypeMeta>, i: int, buffer: Seq<u8>, pos: int) -> bool {
    opens(metas, i) && pos + window_size(metas, i) > buffer.len()
}

/// Reading never goes back, nor beyond the buffer.
pub proof fn reading_goes_ahead(
    schema: Schema,
    root: Schema,
    encoding: Encoding,
    buffer: Seq<u8>,
    pos: int,
)
    requires
        0 <= pos <= buffer.len(),
    ensures
        is_ahead(buffer, pos, decoded(schema, root, encoding, buffer, pos).pos),
    decreases buffer.len() - pos, schema, 0nat,
{
    match schema {
        Schema::Int(width) => {
            lemma_int_at(buffer, pos, width, encoding);
        },
        Schema::Array(element, len) => {
            lemma_items_ahead(*element, root, encoding, buffer, pos, len as nat);
        },
        Schema::Optional(inner) => {
            if pos < buffer.len() {
                reading_goes_ahead(*inner, root, encoding, buffer, pos + 1);
            }
        },
        Schema::List(element) => {
            lemma_int_at(buffer, pos, Width::U64, encoding);
            let (next, len) = int_at(buffer, pos, Width::U64, encoding);
            if let Ok(n) = len {
                lemma_items_ahead(*element, root, encoding, buffer, next, n);
            }
        },
        Schema::Children => {
            lemma_int_at(buffer, pos, Width::U64, encoding);
            let (next, len) = int_at(buffer, pos, Width::U64, encoding);
            if let Ok(n) = len {
                lemma_items_ahead(root, root, encoding, buffer, next, n);
            }
        },
        Schema::Struct(fields) => {
            lemma_fields_ahead(fields@, root, encoding, buffer, pos, None, fields@.len());
        },
        _ => {},
    }
}

proof fn lemma_items_ahead(
    schema: Schema,
    root: Schema,
    encoding: Encoding,
    buffer: Seq<u8>,
    pos: int,
    n: nat,
)
    requires
        0 <= pos <= buffer.len(),
    ensures
        is_ahead(buffer, pos, decoded_items(schema, root, encoding, buffer, pos, n).pos),
    decreases buffer.len() - pos, schema, n,
{
    if n > 0 {
        lemma_items_ahead(schema, root, encoding, buffer, pos, (n - 1) as nat);
        let before = decoded_items(schema, root, encoding, buffer, pos, (n - 1) as nat);
        reading_goes_ahead(schema, root, encoding, buffer, before.pos);
    }
}

pub(crate) proof fn lemma_fields_ahead(
    fields: Seq<FieldSchema>,
    root: Schema,
    encoding: Encoding,
    buffer: Seq<u8>,
    pos: int,
    context: Option<Seq<char>>,
    n: nat,
)
    requires
        0 <= pos <= buffer.len(),
    ensures
        is_ahead(
            buffer,
            pos,
            decoded_fields(fields, root, encoding, buffer, pos, context, n).pos,
        ),
    decreases buffer.len() - pos, fields, n,
{
    if 0 < n <= fields.len() {
        let before = decoded_fields(
            fields,
            root,
            encoding,
            buffer,
            pos,
            context,
            (n - 1) as nat,
        );
        lemma_fields_ahead(fields, root, encoding, buffer, pos, context, (n - 1) as nat);
        let next = decoded_field(
            fields[n - 1],
            root,
            encoding,
            buffer,
            before.pos,
            context_left(fields, context, n - 1),
        );
        if let FieldSchema::Wire(schema) = fields[n - 1] {
            reading_goes_ahead(schema, root, encoding, buffer, before.pos);
            assert(next == decoded(schema, root, encoding, buffer, before.pos));
        } else {
            assert(next.pos == before.pos);
        }
    }
}

/// Whether the reader is the one before, come to the position, with the windows recorded
/// where that is asked for.
pub open spec fn came_to(
    before: RecordingReader,
    after: RecordingReader,
    pos: int,
    windows: Seq<usize>,
    logged: bool,
) -> bool {
    &&& after.wf()
    &&& after.buffer@ == before.buffer@
    &&& after.pos == pos
    &&& after.windows@ == before.windows@ + if logged {
        windows
    } else {
        seq![]
    }
}

/// Whether a value was read as it should be.
pub open spec fn is_value(
    result: Result<Value, ReadError>,
    expected: Result<Val, ReadError>,
) -> bool {
    match (result, expected) {
        (Ok(value), Ok(val)) => value@ == val,
        (Err(error), Err(wanted)) => error == wanted,
        _ => false,
    }
}

impl DynamicByte {
    /// Reads the byte.
    pub fn read(reader: &mut RecordingReader) -> (result: Result<DynamicByte, ReadError>)
        requires
            old(reader).wf(),
        ensures
            came_to(
                *old(reader),
                *final(reader),
                byte_at(old(reader).buffer@, old(reader).pos as int).0,
                seq![],
                true,
            ),
            match (result, byte_at(old(reader).buffer@, old(reader).pos as int).1) {
                (Ok(byte), Ok(wanted)) => byte.0 == wanted,
                (Err(error), Err(wanted)) => error == wanted,
                _ => false,
            },
    {
        let result = reader.take_byte();
        assert(reader.windows@ + Seq::<usize>::empty() =~= reader.windows@);
        match result {
            Ok(byte) => Ok(DynamicByte(byte)),
            Err(error) => Err(error),
        }
    }
}

/// Reads a value of the type. Windows are recorded where that is asked for: a value inside of
/// a window opens none on the reader.
#[verifier::rlimit(40)]
pub fn read_value<'a>(
    schema: &Schema,
    root: &Schema,
    encoding: Encoding,
    reader: &mut RecordingReader<'a>,
    logged: bool,
) -> (result: Result<Value<'a>, ReadError>)
    requires
        old(reader).wf(),
        fits(*schema, encoding),
        fits(*root, encoding),
    ensures
        came_to(
            *old(reader),
            *final(reader),
            decoded(
                *schema,
                *root,
                encoding,
                old(reader).buffer@,
                old(reader).pos as int,
            ).pos,
            decoded(
                *schema,
                *root,
                encoding,
                old(reader).buffer@,
                old(reader).pos as int,
            ).windows,
            logged,
        ),
        is_value(
            result,
            decoded(
                *schema,
                *root,
                encoding,
                old(reader).buffer@,
                old(reader).pos as int,
            ).value,
        ),
    decreases old(reader).buffer@.len() - old(reader).pos, schema, 0nat,
{
    let ghost buffer = reader.buffer@;
    let ghost pos = reader.pos as int;
    assert(reader.windows@ + Seq::<usize>::empty() =~= reader.windows@);
    proof {
        reading_goes_ahead(*schema, *root, encoding, buffer, pos);
    }
    match schema {
        Schema::Unit => Ok(Value::Unit),
        Schema::Bool => {
            let byte: u8 = match reader.take_byte() {
                Ok(byte) => byte,
                Err(error) => {
                    return Err(error);
                },
            };
            if byte == 0 {
                Ok(Value::Bool(false))
            } else if byte == 1 {
                Ok(Value::Bool(true))
            } else {
                Err(ReadError::InvalidBool(byte))
            }
        },
        Schema::Int(width) => {
            proof {
                lemma_int_at(buffer, pos, *width, encoding);
            }
            let (next, read) = take_int(reader.buffer, reader.pos, *width, encoding);
            reader.pos = next;
            match read {
                Ok(n) => Ok(Value::Int(n)),
                Err(error) => Err(error),
            }
        },
        Schema::DynamicByte => {
            match DynamicByte::read(reader) {
                Ok(byte) => Ok(Value::Byte(byte)),
                Err(error) => Err(error),
            }
        },
        Schema::ByteRef => {
            let at: usize = reader.pos;
            if at >= reader.buffer.len() {
                return Err(ReadError::UnexpectedEnd);
            }
            reader.pos = at + 1;
            Ok(Value::Borrowed { byte: &reader.buffer[at], at })
        },
        Schema::Foreign(_) => Err(ReadError::Unreadable),
        Schema::Array(element, len) => {
            let dynamic = match element.meta(encoding) {
                TypeMeta::Static { .. } => false,
                TypeMeta::Dynamic => true,
            };
            let (items, error) = read_items(
                element,
                root,
                encoding,
                reader,
                logged && dynamic,
                *len as u64,
            );
            match error {
                None => Ok(Value::List(items)),
                Some(error) => Err(error),
            }
        },
        Schema::Optional(inner) => {
            let tag: u8 = match reader.take_byte() {
                Ok(tag) => tag,
                Err(error) => {
                    return Err(error);
                },
            };
            if tag == 0 {
                Ok(Value::Nothing)
            } else if tag == 1 {
                match read_value(inner, root, encoding, reader, logged) {
                    Ok(value) => Ok(Value::Just(Box::new(value))),
                    Err(error) => Err(error),
                }
            } else {
                Err(ReadError::InvalidTag(tag))
            }
        },
        Schema::List(element) => {
            proof {
                lemma_int_at(buffer, pos, Width::U64, encoding);
            }
            let (next, len) = take_int(reader.buffer, reader.pos, Width::U64, encoding);
            reader.pos = next;
            match len {
                Ok(n) => {
                    let (items, error) = read_items(element, root, encoding, reader, logged, n);
                    match error {
                        None => Ok(Value::List(items)),
                        Some(error) => Err(error),
                    }
                },
                Err(error) => Err(error),
            }
        },
        Schema::Children => {
            proof {
                lemma_int_at(buffer, pos, Width::U64, encoding);
            }
            let (next, len) = take_int(reader.buffer, reader.pos, Width::U64, encoding);
            reader.pos = next;
            match len {
                Ok(n) => {
                    let (items, error) = read_items(root, root, encoding, reader, logged, n);
                    match error {
                        None => Ok(Value::List(items)),
                        Some(error) => Err(error),
                    }
                },
                Err(error) => Err(error),
            }
        },
        Schema::Struct(fields) => {
            assert(fields_fit(fields@, encoding));
            let (values, error) = read_fields(fields, root, encoding, reader, logged, None);
            match error {
                None => Ok(Value::Struct(values)),
                Some(error) => Err(error),
            }
        },
    }
}

/// Reads `n` values of the type, up to one that fails. Those before it are returned.
fn read_items<'a>(
    schema: &Schema,
    root: &Schema,
    encoding: Encoding,
    reader: &mut RecordingReader<'a>,
    logged: bool,
    n: u64,
) -> (read: (Vec<Value<'a>>, Option<ReadError>))
    requires
        old(reader).wf(),
        fits(*schema, encoding),
        fits(*root, encoding),
    ensures
        is_several(
            read,
            decoded_items(
                *schema,
                *root,
                encoding,
                old(reader).buffer@,
                old(reader).pos as int,
                n as nat,
            ),
        ),
        came_to(
            *old(reader),
            *final(reader),
            decoded_items(
                *schema,
                *root,
                encoding,
                old(reader).buffer@,
                old(reader).pos as int,
                n as nat,
            ).pos,
            decoded_items(
                *schema,
                *root,
                encoding,
                old(reader).buffer@,
                old(reader).pos as int,
                n as nat,
            ).windows,
            logged,
        ),
    decreases old(reader).buffer@.len() - old(reader).pos, schema, n,
{
    let ghost buffer = reader.buffer@;
    let ghost pos = reader.pos as int;
    let mut items: Vec<Value<'a>> = Vec::new();
    let mut i: u64 = 0;
    assert(reader.windows@ + Seq::<usize>::empty() =~= reader.windows@);
    assert(vals(items@) =~= seq![]);
    while i < n
        invariant
            i <= n,
            fits(*schema, encoding),
            fits(*root, encoding),
            buffer == old(reader).buffer@,
            pos == old(reader).pos,
            pos <= buffer.len(),
            is_ahead(buffer, pos, reader.pos as int),
            decoded_items(*schema, *root, encoding, buffer, pos, i as nat).error is None,
            vals(items@) == decoded_items(
                *schema,
                *root,
                encoding,
                buffer,
                pos,
                i as nat,
            ).values,
            came_to(
                *old(reader),
                *reader,
                decoded_items(*schema, *root, encoding, buffer, pos, i as nat).pos,
                decoded_items(*schema, *root, encoding, buffer, pos, i as nat).windows,
                logged,
            ),
        decreases n - i,
    {
        let ghost before = decoded_items(*schema, *root, encoding, buffer, pos, i as nat);
        let ghost next = decoded(*schema, *root, encoding, buffer, before.pos);
        proof {
            reading_goes_ahead(*schema, *root, encoding, buffer, before.pos);
        }
        let result = read_value(schema, root, encoding, reader, logged);
        assert(reader.windows@ =~= old(reader).windows@ + if logged {
            before.windows + next.windows
        } else {
            seq![]
        });
        match result {
            Ok(value) => {
                proof {
                    lemma_vals_push(items@, value);
                }
                items.push(value);
            },
            Err(error) => {
                proof {
                    lemma_items_end(
                        *schema,
                        *root,
                        encoding,
                        buffer,
                        pos,
                        (i + 1) as nat,
                        n as nat,
                    );
                }
                return (items, Some(error));
            },
        }
        i += 1;
    }
    (items, None)
}

/// Whether values were read as they should be.
pub open spec fn is_several(read: (Vec<Value>, Option<ReadError>), expected: Several) -> bool {
    &&& vals(read.0@) == expected.values
    &&& read.1 == expected.error
}

/// Nothing is read behind a value that fails.
proof fn lemma_items_end(
    schema: Schema,
    root: Schema,
    encoding: Encoding,
    buffer: Seq<u8>,
    pos: int,
    n: nat,
    more: nat,
)
    requires
        n <= more,
        decoded_items(schema, root, encoding, buffer, pos, n).error is Some,
    ensures
        decoded_items(schema, root, encoding, buffer, pos, more) == decoded_items(
            schema,
            root,
            encoding,
            buffer,
            pos,
            n,
        ),
    decreases more,
{
    if n < more {
        lemma_items_end(schema, root, encoding, buffer, pos, n, (more - 1) as nat);
    }
}

/// Nothing is read behind a field that fails.
proof fn lemma_fields_end(
    fields: Seq<FieldSchema>,
    root: Schema,
    encoding: Encoding,
    buffer: Seq<u8>,
    pos: int,
    context: Option<Seq<char>>,
    n: nat,
    more: nat,
)
    requires
        n <= more <= fields.len(),
        decoded_fields(fields, root, encoding, buffer, pos, context, n).error is Some,
    ensures
        decoded_fields(fields, root, encoding, buffer, pos, context, more) == decoded_fields(
            fields,
            root,
            encoding,
            buffer,
            pos,
            context,
            n,
        ),
    decreases more,
{
    if n < more {
        lemma_fields_end(fields, root, encoding, buffer, pos, context, n, (more - 1) as nat);
    }
}

/// A field uses the context up if it takes it, and else leaves it.
proof fn lemma_context_left(fields: Seq<FieldSchema>, context: Option<Seq<char>>, i: int)
    requires
        0 <= i < fields.len(),
    ensures
        context_left(fields, context, i + 1) == if fields[i] is Context {
            None
        } else {
            context_left(fields, context, i)
        },
{
    if fields[i] is Context {
        assert(0 <= i < i + 1 && fields[i] is Context);
    } else if exists|k: int| 0 <= k < i && (#[trigger] fields[k]) is Context {
        let k = choose|k: int| 0 <= k < i && (#[trigger] fields[k]) is Context;
        assert(0 <= k < i + 1 && fields[k] is Context);
    }
}

/// Opens the window of a run, if the field at `i` is its first; whether the field is in a run.
fn open_run(
    run: &FieldRun,
    i: usize,
    reader: &mut RecordingReader,
    logged: bool,
    Ghost(metas): Ghost<Seq<TypeMeta>>,
) -> (result: Result<bool, ReadError>)
    requires
        old(reader).wf(),
        i < metas.len(),
        run_at(metas, i as int, *run),
    ensures
        came_to(
            *old(reader),
            *final(reader),
            old(reader).pos as int,
            if opens(metas, i as int) {
                seq![window_size(metas, i as int) as usize]
            } else {
                seq![]
            },
            logged,
        ),
        match result {
            Ok(in_window) => {
                &&& in_window == metas[i as int] is Static
                &&& !runs_out(metas, i as int, old(reader).buffer@, old(reader).pos as int)
            },
            Err(error) => {
                &&& error == ReadError::UnexpectedEnd
                &&& runs_out(metas, i as int, old(reader).buffer@, old(reader).pos as int)
            },
        },
{
    assert(reader.windows@ + Seq::<usize>::empty() =~= reader.windows@);
    if let FieldRun::Static { start, end, size } = run {
        proof {
            lemma_run(metas, *start as int, *end as int, i as int);
        }
        if *start == i {
            let opened = if logged {
                reader.as_trusted_for(*size)
            } else {
                reader.check_for(*size)
            };
            assert(reader.windows@ =~= old(reader).windows@ + if logged {
                seq![*size]
            } else {
                seq![]
            });
            return match opened {
                Ok(_) => Ok(true),
                Err(error) => Err(error),
            };
        }
        return Ok(true);
    }
    Ok(false)
}

/// Reads a field with the context that is left for it.
fn read_field<'a>(
    field: &FieldSchema,
    root: &Schema,
    encoding: Encoding,
    reader: &mut RecordingReader<'a>,
    logged: bool,
    left: &mut Option<String>,
) -> (result: Result<Value<'a>, ReadError>)
    requires
        old(reader).wf(),
        field_fits(*field, encoding),
        fits(*root, encoding),
    ensures
        came_to(
            *old(reader),
            *final(reader),
            decoded_field(
                *field,
                *root,
                encoding,
                old(reader).buffer@,
                old(reader).pos as int,
                opt_text(*old(left)),
            ).pos,
            decoded_field(
                *field,
                *root,
                encoding,
                old(reader).buffer@,
                old(reader).pos as int,
                opt_text(*old(left)),
            ).windows,
            logged,
        ),
        is_value(
            result,
            decoded_field(
                *field,
                *root,
                encoding,
                old(reader).buffer@,
                old(reader).pos as int,
                opt_text(*old(left)),
            ).value,
        ),
        *final(left) == if *field is Context {
            None
        } else {
            *old(left)
        },
    decreases old(reader).buffer@.len() - old(reader).pos, field, 0nat,
{
    assert(reader.windows@ + Seq::<usize>::empty() =~= reader.windows@);
    match field {
        FieldSchema::Wire(schema) => read_value(schema, root, encoding, reader, logged),
        FieldSchema::Skipped(value) => Ok(value.copy()),
        FieldSchema::Context { .. } => match left.take() {
            Some(text) => Ok(Value::Text(text)),
            None => Err(ReadError::MissingContext),
        },
    }
}

/// Reads the fields of a declaration with a context, up to one that fails: each run of static
/// fields through a window, and the other fields on their own. Those before the one that fails
/// are returned.
#[verifier::rlimit(40)]
pub fn read_fields<'a>(
    fields: &Vec<FieldSchema>,
    root: &Schema,
    encoding: Encoding,
    reader: &mut RecordingReader<'a>,
    logged: bool,
    context: Option<String>,
) -> (read: (Vec<Value<'a>>, Option<ReadError>))
    requires
        old(reader).wf(),
        fields_fit(fields@, encoding),
        fits(*root, encoding),
    ensures
        is_several(
            read,
            decoded_fields(
                fields@,
                *root,
                encoding,
                old(reader).buffer@,
                old(reader).pos as int,
                opt_text(context),
                fields@.len(),
            ),
        ),
        came_to(
            *old(reader),
            *final(reader),
            decoded_fields(
                fields@,
                *root,
                encoding,
                old(reader).buffer@,
                old(reader).pos as int,
                opt_text(context),
                fields@.len(),
            ).pos,
            decoded_fields(
                fields@,
                *root,
                encoding,
                old(reader).buffer@,
                old(reader).pos as int,
                opt_text(context),
                fields@.len(),
            ).windows,
            logged,
        ),
    decreases old(reader).buffer@.len() - old(reader).pos, fields, 0nat,
{
    let ghost buffer = reader.buffer@;
    let ghost pos = reader.pos as int;
    let ghost given = opt_text(context);
    let metas = field_metas(fields, encoding);
    let runs = TypeMeta::field_runs(&metas);
    let mut left: Option<String> = context;
    let mut values: Vec<Value<'a>> = Vec::new();
    let mut i: usize = 0;
    assert(reader.windows@ + Seq::<usize>::empty() =~= reader.windows@);
    assert(vals(values@) =~= seq![]);
    while i < fields.len()
        invariant
            i <= fields.len(),
            fields_fit(fields@, encoding),
            fits(*root, encoding),
            metas@ == metas_of(fields@, encoding),
            is_plan(metas@, runs@),
            buffer == old(reader).buffer@,
            pos == old(reader).pos,
            pos <= buffer.len(),
            given == opt_text(context),
            is_ahead(buffer, pos, reader.pos as int),
            opt_text(left) == context_left(fields@, given, i as int),
            decoded_fields(
                fields@,
                *root,
                encoding,
                buffer,
                pos,
                given,
                i as nat,
            ).error is None,
            vals(values@) == decoded_fields(
                fields@,
                *root,
                encoding,
                buffer,
                pos,
                given,
                i as nat,
            ).values,
            came_to(
                *old(reader),
                *reader,
                decoded_fields(fields@, *root, encoding, buffer, pos, given, i as nat).pos,
                decoded_fields(fields@, *root, encoding, buffer, pos, given, i as nat).windows,
                logged,
            ),
        decreases fields.len() - i,
    {
        let ghost before = decoded_fields(
            fields@,
            *root,
            encoding,
            buffer,
            pos,
            given,
            i as nat,
        );
        let ghost after = decoded_fields(
            fields@,
            *root,
            encoding,
            buffer,
            pos,
            given,
            (i + 1) as nat,
        );
        assert(run_at(metas@, i as int, runs@[i as int]));
        let ghost opened = opened_at(metas@, i as int, before);
        let in_window = match open_run(&runs[i], i, reader, logged, Ghost(metas@)) {
            Ok(in_window) => in_window,
            Err(error) => {
                assert(after == (Several { error: Some(ReadError::UnexpectedEnd), ..opened }));
                assert(reader.windows@ =~= old(reader).windows@ + if logged {
                    after.windows
                } else {
                    seq![]
                });
                proof {
                    lemma_fields_end(
                        fields@,
                        *root,
                        encoding,
                        buffer,
                        pos,
                        given,
                        (i + 1) as nat,
                        fields@.len(),
                    );
                }
                return (values, Some(error));
            },
        };
        proof {
            lemma_fields_ahead(
                fields@,
                *root,
                encoding,
                buffer,
                pos,
                given,
                (i + 1) as nat,
            );
            lemma_context_left(fields@, given, i as int);
        }
        let ghost next = decoded_field(
            fields@[i as int],
            *root,
            encoding,
            buffer,
            before.pos,
            opt_text(left),
        );
        assert(after == then_next(
            opened,
            if metas@[i as int] is Static {
                plain(next.pos, next.value)
            } else {
                next
            },
        ));
        assert(field_fits(fields@[i as int], encoding));
        assert(decreases_to!(fields => fields[i as int]));
        let result = read_field(
            &fields[i],
            root,
            encoding,
            reader,
            logged && !in_window,
            &mut left,
        );
        assert(reader.windows@ =~= old(reader).windows@ + if logged {
            after.windows
        } else {
            seq![]
        });
        match result {
            Ok(value) => {
                proof {
                    lemma_vals_push(values@, value);
                }
                values.push(value);
            },
            Err(error) => {
                proof {
                    lemma_fields_end(
                        fields@,
                        *root,
                        encoding,
                        buffer,
                        pos,
                        given,
                        (i + 1) as nat,
                        fields@.len(),
                    );
                }
                return (values, Some(error));
            },
        }
        i += 1;
    }
    (values, None)
}

/// What becomes of reading a value of a declaration with a context.
pub open spec fn decoded_with(
    schema: Schema,
    encoding: Encoding,
    buffer: Seq<u8>,
    pos: int,
    context: Option<Seq<char>>,
) -> Decoded {
    match schema {
        Schema::Struct(fields) => as_struct(
            decoded_fields(fields@, schema, encoding, buffer, pos, context, fields@.len()),
        ),
        _ => decoded(schema, schema, encoding, buffer, pos),
    }
}

/// Reads a value of a declaration.
pub fn get<'a>(schema: &Schema, encoding: Encoding, reader: &mut RecordingReader<'a>) -> (result:
    Result<Value<'a>, ReadError>)
    requires
        old(reader).wf(),
        fits(*schema, encoding),
    ensures
        came_to(
            *old(reader),
            *final(reader),
            decoded(
                *schema,
                *schema,
                encoding,
                old(reader).buffer@,
                old(reader).pos as int,
            ).pos,
            decoded(
                *schema,
                *schema,
                encoding,
                old(reader).buffer@,
                old(reader).pos as int,
            ).windows,
            true,
        ),
        is_value(
            result,
            decoded(
                *schema,
                *schema,
                encoding,
                old(reader).buffer@,
                old(reader).pos as int,
            ).value,
        ),
{
    read_value(schema, schema, encoding, reader, true)
}

/// Reads a value of a declaration with a context.
pub fn get_with_context<'a>(
    context: String,
    schema: &Schema,
    encoding: Encoding,
    reader: &mut RecordingReader<'a>,
) -> (result: Result<Value<'a>, ReadError>)
    requires
        old(reader).wf(),
        fits(*schema, encoding),
    ensures
        came_to(
            *old(reader),
            *final(reader),
            decoded_with(
                *schema,
                encoding,
                old(reader).buffer@,
                old(reader).pos as int,
                Some(context@),
            ).pos,
            decoded_with(
                *schema,
                encoding,
                old(reader).buffer@,
                old(reader).pos as int,
                Some(context@),
            ).windows,
            true,
        ),
        is_value(
            result,
            decoded_with(
                *schema,
                encoding,
                old(reader).buffer@,
                old(reader).pos as int,
                Some(context@),
            ).value,
        ),
{
    match schema {
        Schema::Struct(fields) => {
            assert(fields_fit(fields@, encoding));
            let (values, error) = read_fields(
                fields,
                schema,
                encoding,
                reader,
                true,
                Some(context),
            );
            match error {
                None => Ok(Value::Struct(values)),
                Some(error) => Err(error),
            }
        },
        _ => read_value(schema, schema, encoding, reader, true),
    }
}

/// Reads a value of a declaration from the beginning of the bytes.
pub fn deserialize<'a>(schema: &Schema, encoding: Encoding, bytes: &'a [u8]) -> (result: Result<
    Value<'a>,
    ReadError,
>)
    requires
        fits(*schema, encoding),
    ensures
        is_value(result, decoded(*schema, *schema, encoding, bytes@, 0).value),
{
    let mut reader = RecordingReader::new(bytes);
    get(schema, encoding, &mut reader)
}

/// Where the buffer ends, types that begin with a byte are not read, and the position stays.
pub proof fn nothing_is_read_behind_the_end(
    inner: Box<Schema>,
    root: Schema,
    encoding: Encoding,
    buffer: Seq<u8>,
    schema: Schema,
)
    requires
        schema == Schema::Bool || schema == Schema::DynamicByte || schema == Schema::ByteRef
            || schema == Schema::Optional(inner),
    ensures
        decoded(schema, root, encoding, buffer, buffer.len() as int) == (Decoded {
            pos: buffer.len() as int,
            windows: seq![],
            value: Err(ReadError::UnexpectedEnd),
        }),
{
}

/// How types of one byte are read: a `bool` is false for zero and true for one, and else there
/// is none; a byte is what stands there, and where it is borrowed it is known where it stands.
/// A unit is read without a byte, and what can only be written is not read.
pub proof fn plain_values_are_read_as_they_are(
    root: Schema,
    encoding: Encoding,
    buffer: Seq<u8>,
    pos: int,
    size: usize,
)
    requires
        0 <= pos < buffer.len(),
    ensures
        decoded(Schema::Unit, root, encoding, buffer, pos) == (Decoded {
            pos,
            windows: seq![],
            value: Ok(Val::Unit),
        }),
        decoded(Schema::Bool, root, encoding, buffer, pos) == (Decoded {
            pos: pos + 1,
            windows: seq![],
            value: if buffer[pos] == 0 {
                Ok(Val::Bool(false))
            } else if buffer[pos] == 1 {
                Ok(Val::Bool(true))
            } else {
                Err(ReadError::InvalidBool(buffer[pos]))
            },
        }),
        decoded(Schema::DynamicByte, root, encoding, buffer, pos) == (Decoded {
            pos: pos + 1,
            windows: seq![],
            value: Ok(Val::Byte(buffer[pos])),
        }),
        decoded(Schema::ByteRef, root, encoding, buffer, pos) == (Decoded {
            pos: pos + 1,
            windows: seq![],
            value: Ok(Val::Borrowed { byte: buffer[pos], at: pos }),
        }),
        decoded(Schema::Foreign(size), root, encoding, buffer, pos) == (Decoded {
            pos,
            windows: seq![],
            value: Err(ReadError::Unreadable),
        }),
{
}

/// An integer is read as the bytes at the position say, and opens no window.
pub proof fn integers_are_read_as_their_bytes_say(
    root: Schema,
    encoding: Encoding,
    buffer: Seq<u8>,
    pos: int,
    width: Width,
)
    ensures
        ({
            let (next, read) = int_at(buffer, pos, width, encoding);
            let outcome = decoded(Schema::Int(width), root, encoding, buffer, pos);
            &&& outcome.pos == next
            &&& outcome.windows.len() == 0
            &&& read matches Ok(n) ==> outcome.value == Ok::<Val, ReadError>(Val::Int(n))
            &&& read matches Err(error) ==> outcome.value == Err::<Val, ReadError>(error)
        }),
{
}

/// Whether there is a value is what the byte before it says: there is none for zero and one for
/// one, which is read behind that byte; any other byte is refused.
pub proof fn optional_values_are_read_behind_their_tag(
    inner: Box<Schema>,
    root: Schema,
    encoding: Encoding,
    buffer: Seq<u8>,
    pos: int,
)
    requires
        0 <= pos < buffer.len(),
    ensures
        ({
            let outcome = decoded(Schema::Optional(inner), root, encoding, buffer, pos);
            let value = decoded(*inner, root, encoding, buffer, pos + 1);
            if buffer[pos] == 0 {
                outcome == (Decoded { pos: pos + 1, windows: seq![], value: Ok(Val::Nothing) })
            } else if buffer[pos] == 1 {
                &&& outcome.pos == value.pos
                &&& outcome.windows == value.windows
                &&& value.value matches Ok(val) ==> outcome.value == Ok::<Val, ReadError>(
                    Val::Just(Box::new(val)),
                )
                &&& value.value matches Err(error) ==> outcome.value == Err::<Val, ReadError>(
                    error,
                )
            } else {
                outcome == (Decoded {
                    pos: pos + 1,
                    windows: seq![],
                    value: Err(ReadError::InvalidTag(buffer[pos])),
                })
            }
        }),
{
}

/// The values of a list are as many as the number before them says, and are read behind it; the
/// values of an array are as many as it is long. They are all read, or the first that fails says
/// why they are not.
pub proof fn lists_are_read_behind_their_number(
    element: Box<Schema>,
    len: usize,
    root: Schema,
    encoding: Encoding,
    buffer: Seq<u8>,
    pos: int,
)
    requires
        0 <= pos <= buffer.len(),
    ensures
        ({
            let (next, read) = int_at(buffer, pos, Width::U64, encoding);
            let list = decoded(Schema::List(element), root, encoding, buffer, pos);
            let children = decoded(Schema::Children, root, encoding, buffer, pos);
            match read {
                Err(error) => {
                    &&& list == (Decoded { pos: next, windows: seq![], value: Err(error) })
                    &&& children == (Decoded { pos: next, windows: seq![], value: Err(error) })
                },
                Ok(n) => {
                    let items = decoded_items(*element, root, encoding, buffer, next, n);
                    let roots = decoded_items(root, root, encoding, buffer, next, n);
                    &&& list.pos == items.pos && list.windows == items.windows
                    &&& items.error is None ==> list.value == Ok::<Val, ReadError>(
                        Val::List(items.values),
                    )
                    &&& items.error matches Some(error) ==> list.value == Err::<Val, ReadError>(
                        error,
                    )
                    &&& children.pos == roots.pos && children.windows == roots.windows
                    &&& roots.error is None ==> children.value == Ok::<Val, ReadError>(
                        Val::List(roots.values),
                    )
                    &&& roots.error matches Some(error) ==> children.value == Err::<
                        Val,
                        ReadError,
                    >(error)
                },
            }
        }),
        ({
            let array = decoded(Schema::Array(element, len), root, encoding, buffer, pos);
            let items = decoded_items(*element, root, encoding, buffer, pos, len as nat);
            &&& array.pos == items.pos
            &&& size_of(*element, encoding) is None ==> array.windows == items.windows
            &&& size_of(*element, encoding) is Some ==> array.windows.len() == 0
            &&& items.error is None ==> array.value == Ok::<Val, ReadError>(
                Val::List(items.values),
            )
            &&& items.error matches Some(error) ==> array.value == Err::<Val, ReadError>(error)
        }),
{
    lemma_int_at(buffer, pos, Width::U64, encoding);
}

/// Values are read in order, each behind the one before it, up to one that fails.
pub proof fn items_are_read_in_order(
    schema: Schema,
    root: Schema,
    encoding: Encoding,
    buffer: Seq<u8>,
    pos: int,
    n: nat,
)
    requires
        0 <= pos <= buffer.len(),
    ensures
        decoded_items(schema, root, encoding, buffer, pos, 0) == (Several {
            pos,
            windows: seq![],
            values: seq![],
            error: None,
        }),
        ({
            let before = decoded_items(schema, root, encoding, buffer, pos, n);
            let next = decoded(schema, root, encoding, buffer, before.pos);
            let all = decoded_items(schema, root, encoding, buffer, pos, n + 1);
            &&& before.error is Some ==> all == before
            &&& before.error is None ==> {
                &&& all.pos == next.pos
                &&& all.windows == before.windows + next.windows
                &&& next.value matches Ok(val) ==> all.values == before.values.push(val)
                    && all.error is None
                &&& next.value matches Err(error) ==> all.values == before.values && all.error
                    == Some(error)
            }
        }),
{
    lemma_items_ahead(schema, root, encoding, buffer, pos, n);
}

/// A declaration is read field by field: the values are those of its fields, if none fails.
pub proof fn declarations_are_read_field_by_field(
    fields: Vec<FieldSchema>,
    root: Schema,
    encoding: Encoding,
    buffer: Seq<u8>,
    pos: int,
    context: Option<Seq<char>>,
)
    ensures
        ({
            let outcome = decoded(Schema::Struct(fields), root, encoding, buffer, pos);
            let read = decoded_fields(fields@, root, encoding, buffer, pos, None, fields@.len());
            &&& outcome.pos == read.pos && outcome.windows == read.windows
            &&& read.error is None ==> outcome.value == Ok::<Val, ReadError>(
                Val::Struct(read.values),
            )
            &&& read.error matches Some(error) ==> outcome.value == Err::<Val, ReadError>(error)
        }),
        ({
            let schema = Schema::Struct(fields);
            let outcome = decoded_with(schema, encoding, buffer, pos, context);
            let read = decoded_fields(
                fields@,
                schema,
                encoding,
                buffer,
                pos,
                context,
                fields@.len(),
            );
            &&& outcome.pos == read.pos && outcome.windows == read.windows
            &&& read.error is None ==> outcome.value == Ok::<Val, ReadError>(
                Val::Struct(read.values),
            )
            &&& read.error matches Some(error) ==> outcome.value == Err::<Val, ReadError>(error)
        }),
{
}

/// What is read without a context is what is read with none.
pub proof fn no_context_is_an_absent_one(
    schema: Schema,
    encoding: Encoding,
    buffer: Seq<u8>,
    pos: int,
)
    ensures
        decoded_with(schema, encoding, buffer, pos, None) == decoded(
            schema,
            schema,
            encoding,
            buffer,
            pos,
        ),
        !(schema is Struct) ==> forall|context: Option<Seq<char>>|
            #[trigger] decoded_with(schema, encoding, buffer, pos, context) == decoded(
                schema,
                schema,
                encoding,
                buffer,
                pos,
            ),
{
}

/// Fields are read in order, each behind the one before it, up to one that fails. A static field
/// behind a static one is read in the window that is open; the first static field of a run opens
/// one for all of the run, and where there are not that many bytes nothing of the run is read.
/// A skipped field is initialized, and a field takes the context if none before it did.
#[verifier::rlimit(40)]
pub proof fn fields_are_read_in_order(
    fields: Seq<FieldSchema>,
    root: Schema,
    encoding: Encoding,
    buffer: Seq<u8>,
    pos: int,
    context: Option<Seq<char>>,
    i: int,
    end: int,
)
    requires
        fields_fit(fields, encoding),
        0 <= pos <= buffer.len(),
        0 <= i < end <= fields.len(),
        forall|k: int| i <= k < end ==> (#[trigger] metas_of(fields, encoding)[k]) is Static,
        end < fields.len() ==> metas_of(fields, encoding)[end] is Dynamic,
    ensures
        decoded_fields(fields, root, encoding, buffer, pos, context, 0) == (Several {
            pos,
            windows: seq![],
            values: seq![],
            error: None,
        }),
        ({
            let metas = metas_of(fields, encoding);
            let size = total_size(metas.subrange(i, end));
            let first = i == 0 || metas[i - 1] is Dynamic;
            let before = decoded_fields(fields, root, encoding, buffer, pos, context, i as nat);
            let all = decoded_fields(
                fields,
                root,
                encoding,
                buffer,
                pos,
                context,
                (i + 1) as nat,
            );
            let windows = if first {
                before.windows.push(size as usize)
            } else {
                before.windows
            };
            &&& before.error is Some ==> all == before
            &&& before.error is None && first && before.pos + size > buffer.len() ==> all == (
            Several { windows, error: Some(ReadError::UnexpectedEnd), ..before })
            &&& before.error is None && !(first && before.pos + size > buffer.len()) ==> {
                &&& all.windows == windows
                &&& is_next(fields, root, encoding, buffer, context, i, before, all)
            }
        }),
{
    let metas = metas_of(fields, encoding);
    let before = decoded_fields(fields, root, encoding, buffer, pos, context, i as nat);
    let all = decoded_fields(fields, root, encoding, buffer, pos, context, (i + 1) as nat);
    lemma_fields_ahead(fields, root, encoding, buffer, pos, context, i as nat);
    assert(metas[i] is Static);
    static_fields_are_in_a_run(metas, i);
    let start = run_start(metas, i);
    let stop = run_end(metas, i);
    if stop < end {
        assert(metas[stop] is Static);
    }
    if end < stop {
        assert(metas[end] is Static);
    }
    if i > 0 && metas[i - 1] is Static {
        if start == i {
            assert(metas[start - 1] is Dynamic);
        }
    } else {
        if start < i {
            assert(metas[i - 1] is Static);
        }
    }
    if before.error is None && !runs_out(metas, i, buffer, before.pos) {
        let opened = opened_at(metas, i, before);
        assert(opened.windows + Seq::<usize>::empty() =~= opened.windows);
        lemma_context_is_left(fields, context, i);
        lemma_next_field(
            fields[i],
            root,
            encoding,
            buffer,
            before.pos,
            context_left(fields, context, i),
        );
    }
}

/// Whether `all` is `before` with what is read of the field at `i`, but for the windows.
pub open spec fn is_next(
    fields: Seq<FieldSchema>,
    root: Schema,
    encoding: Encoding,
    buffer: Seq<u8>,
    context: Option<Seq<char>>,
    i: int,
    before: Several,
    all: Several,
) -> bool {
    match fields[i] {
        FieldSchema::Wire(schema) => {
            let next = decoded(schema, root, encoding, buffer, before.pos);
            &&& all.pos == next.pos
            &&& next.value matches Ok(val) ==> all.values == before.values.push(val)
                && all.error is None
            &&& next.value matches Err(error) ==> all.values == before.values && all.error == Some(
                error,
            )
        },
        FieldSchema::Skipped(value) => {
            &&& all.pos == before.pos
            &&& all.values == before.values.push(value@)
            &&& all.error is None
        },
        FieldSchema::Context { .. } => {
            &&& all.pos == before.pos
            &&& if context is Some && forall|k: int|
                0 <= k < i ==> !((#[trigger] fields[k]) is Context) {
                &&& all.values == before.values.push(Val::Text(context->Some_0))
                &&& all.error is None
            } else {
                &&& all.values == before.values
                &&& all.error == Some(ReadError::MissingContext)
            }
        },
    }
}

/// What becomes of a field is what becomes of its type, its value or the context.
proof fn lemma_next_field(
    field: FieldSchema,
    root: Schema,
    encoding: Encoding,
    buffer: Seq<u8>,
    pos: int,
    context: Option<Seq<char>>,
)
    ensures
        decoded_field(field, root, encoding, buffer, pos, context) == match field {
            FieldSchema::Wire(schema) => decoded(schema, root, encoding, buffer, pos),
            FieldSchema::Skipped(value) => plain(pos, Ok(value@)),
            FieldSchema::Context { .. } => context_value(pos, context),
        },
{
}

/// The context is left exactly for fields before which none takes it.
proof fn lemma_context_is_left(fields: Seq<FieldSchema>, context: Option<Seq<char>>, i: int)
    ensures
        context_left(fields, context, i) == if forall|k: int|
            0 <= k < i ==> !((#[trigger] fields[k]) is Context) {
            context
        } else {
            None
        },
{
}

/// A dynamic field is read outside of windows, and may open its own.
pub proof fn dynamic_fields_are_read_as_their_values(
    fields: Seq<FieldSchema>,
    root: Schema,
    encoding: Encoding,
    buffer: Seq<u8>,
    pos: int,
    context: Option<Seq<char>>,
    i: int,
)
    requires
        0 <= pos <= buffer.len(),
        0 <= i < fields.len(),
        metas_of(fields, encoding)[i] is Dynamic,
    ensures
        ({
            let before = decoded_fields(fields, root, encoding, buffer, pos, context, i as nat);
            let all = decoded_fields(
                fields,
                root,
                encoding,
                buffer,
                pos,
                context,
                (i + 1) as nat,
            );
            &&& before.error is Some ==> all == before
            &&& before.error is None ==> {
                &&& all.windows == before.windows + match fields[i] {
                    FieldSchema::Wire(schema) => decoded(
                        schema,
                        root,
                        encoding,
                        buffer,
                        before.pos,
                    ).windows,
                    _ => seq![],
                }
                &&& is_next(fields, root, encoding, buffer, context, i, before, all)
            }
        }),
{
    let before = decoded_fields(fields, root, encoding, buffer, pos, context, i as nat);
    lemma_fields_ahead(fields, root, encoding, buffer, pos, context, i as nat);
    lemma_context_is_left(fields, context, i);
    lemma_next_field(
        fields[i],
        root,
        encoding,
        buffer,
        before.pos,
        context_left(fields, context, i),
    );
    assert(before.windows + Seq::<usize>::empty() =~= before.windows);
}

/// A result is that of reading exactly if it is the value that is read, or the reason for which
/// none is.
pub proof fn results_say_what_is_read(
    result: Result<Value, ReadError>,
    expected: Result<Val, ReadError>,
)
    ensures
        is_value(result, expected) <==> match expected {
            Ok(val) => result matches Ok(value) && value@ == val,
            Err(wanted) => result matches Err(error) && error == wanted,
        },
{
}

/// A reader comes to a position of the same buffer, and keeps the windows that it recorded. Where
/// that is asked for, it records those that are opened behind them.
pub proof fn readers_keep_what_they_recorded(
    before: RecordingReader,
    after: RecordingReader,
    pos: int,
    windows: Seq<usize>,
    logged: bool,
)
    requires
        came_to(before, after, pos, windows, logged),
    ensures
        after.buffer@ == before.buffer@,
        after.pos == pos,
        pos <= after.buffer@.len(),
        after.windows@.take(before.windows@.len() as int) == before.windows@,
        logged ==> after.windows@.skip(before.windows@.len() as int) == windows,
        !logged ==> after.windows@ == before.windows@,
{
    assert(after.windows@.take(before.windows@.len() as int) =~= before.windows@);
    if logged {
        assert(after.windows@.skip(before.windows@.len() as int) =~= windows);
    } else {
        assert(after.windows@ =~= before.windows@);
    }
}

/// What is read of fields are the values up to the first that fails, and why it does.
pub proof fn several_results_say_what_is_read(
    read: (Vec<Value>, Option<ReadError>),
    expected: Several,
    i: int,
)
    requires
        is_several(read, expected),
    ensures
        read.0@.len() == expected.values.len(),
        0 <= i < read.0@.len() ==> read.0@[i]@ == expected.values[i],
        read.1 == expected.error,
{
    assert(vals(read.0@).len() == read.0@.len());
    if 0 <= i < read.0@.len() {
        assert(vals(read.0@)[i] == read.0@[i]@);
    }
}

} // verus!
