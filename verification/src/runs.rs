//! What holds of the windows, of what is written through them, and of what is read back.

use crate::decode::{
    as_list, byte_at, context_left, context_value, decoded, decoded_field, decoded_fields,
    decoded_items, is_ahead, lemma_fields_ahead, opens, plain, reading_goes_ahead, runs_out,
    window_size, Decoded, Several,
};
use crate::encode::{
    closing, encoded, encoded_field, encoded_fields, encoded_items, events, events_of_fields,
    events_of_items, lemma_events_stop, lemma_field_size, lemma_fields_stop, opening,
    static_values_fill_their_size, write_event,
    written, Encoded,
};
use crate::meta::{
    is_run, lemma_run, lemma_total_size_prefix, run_end, run_size, run_start,
    static_fields_are_in_a_run, TypeMeta,
};
use crate::record::Event;
use crate::schema::{
    field_fits, fields_fit, fits, lemma_size_fits, lemma_size_of_fields, metas_of, size_of,
    size_of_field, FieldSchema, Schema, Val,
};
use crate::wire::{
    bytes_of, capacity, fixed_integers_are_those_of_their_bytes, int_at, int_bytes,
    integers_are_read_back, lemma_capacities, lemma_int_at, lemma_int_bytes_len, Encoding,
    ReadError, Width,
};
use vstd::prelude::*;

verus! {

/// The fields that are read before one fails are those before it in the declaration, and what
/// is read of them does not depend on it. If none fails they are all.
pub proof fn initialized_fields_are_a_prefix(
    fields: Seq<FieldSchema>,
    root: Schema,
    encoding: Encoding,
    buffer: Seq<u8>,
    pos: int,
    context: Option<Seq<char>>,
    n: nat,
)
    requires
        0 <= pos <= buffer.len(),
        n <= fields.len(),
    ensures
        ({
            let all = decoded_fields(fields, root, encoding, buffer, pos, context, n);
            let before = decoded_fields(
                fields,
                root,
                encoding,
                buffer,
                pos,
                context,
                all.values.len(),
            );
            &&& all.error is None ==> all.values.len() == n
            &&& all.error is Some ==> all.values.len() < n
            &&& before.error is None
            &&& before.values == all.values
        }),
    decreases n,
{
    if n > 0 {
        initialized_fields_are_a_prefix(
            fields,
            root,
            encoding,
            buffer,
            pos,
            context,
            (n - 1) as nat,
        );
        lemma_fields_ahead(
            fields,
            root,
            encoding,
            buffer,
            pos,
            context,
            (n - 1) as nat,
        );
    }
}

/// What is read of a field stays as it is, whatever is read behind it.
pub proof fn read_fields_stay(
    fields: Seq<FieldSchema>,
    root: Schema,
    encoding: Encoding,
    buffer: Seq<u8>,
    pos: int,
    context: Option<Seq<char>>,
    n: nat,
    more: nat,
)
    requires
        0 <= pos <= buffer.len(),
        n <= more <= fields.len(),
        decoded_fields(fields, root, encoding, buffer, pos, context, more).error is None,
    ensures
        ({
            let before = decoded_fields(fields, root, encoding, buffer, pos, context, n);
            let all = decoded_fields(fields, root, encoding, buffer, pos, context, more);
            &&& before.error is None
            &&& before.values.len() == n
            &&& all.values.len() == more
            &&& before.values == all.values.take(n as int)
            &&& is_ahead(buffer, pos, before.pos)
        }),
    decreases more,
{
    let all = decoded_fields(fields, root, encoding, buffer, pos, context, more);
    initialized_fields_are_a_prefix(fields, root, encoding, buffer, pos, context, more);
    lemma_fields_ahead(fields, root, encoding, buffer, pos, context, n);
    if n == more {
        assert(all.values.take(n as int) =~= all.values);
    } else {
        let last = (more - 1) as nat;
        lemma_fields_ahead(fields, root, encoding, buffer, pos, context, last);
        initialized_fields_are_a_prefix(fields, root, encoding, buffer, pos, context, last);
        read_fields_stay(fields, root, encoding, buffer, pos, context, n, last);
        let before = decoded_fields(fields, root, encoding, buffer, pos, context, last);
        assert(before.values.take(n as int) =~= all.values.take(n as int));
    }
}

/// What is read of a field is what is read last of the fields up to it.
proof fn lemma_field_value(
    fields: Seq<FieldSchema>,
    root: Schema,
    encoding: Encoding,
    buffer: Seq<u8>,
    pos: int,
    context: Option<Seq<char>>,
    n: nat,
    i: int,
)
    requires
        0 <= pos <= buffer.len(),
        0 <= i < n <= fields.len(),
        decoded_fields(fields, root, encoding, buffer, pos, context, n).error is None,
    ensures
        ({
            let before = decoded_fields(fields, root, encoding, buffer, pos, context, i as nat);
            let with = decoded_fields(
                fields,
                root,
                encoding,
                buffer,
                pos,
                context,
                (i + 1) as nat,
            );
            let all = decoded_fields(fields, root, encoding, buffer, pos, context, n);
            &&& before.error is None
            &&& before.values.len() == i
            &&& is_ahead(buffer, pos, before.pos)
            &&& with.error is None
            &&& with.values.len() == i + 1
            &&& all.values.len() == n
            &&& all.values[i] == with.values[i]
        }),
{
    read_fields_stay(fields, root, encoding, buffer, pos, context, (i + 1) as nat, n);
    read_fields_stay(fields, root, encoding, buffer, pos, context, i as nat, (i + 1) as nat);
    let all = decoded_fields(fields, root, encoding, buffer, pos, context, n);
    assert(all.values.take(i + 1)[i] == all.values[i]);
}

/// What becomes of the field at `i`.
proof fn lemma_decoded_field(
    fields: Seq<FieldSchema>,
    root: Schema,
    encoding: Encoding,
    buffer: Seq<u8>,
    pos: int,
    context: Option<Seq<char>>,
    i: int,
)
    ensures
        ({
            let at = decoded_fields(fields, root, encoding, buffer, pos, context, i as nat).pos;
            let left = context_left(fields, context, i);
            decoded_field(fields[i], root, encoding, buffer, at, left) == match fields[i] {
                FieldSchema::Wire(schema) => decoded(schema, root, encoding, buffer, at),
                FieldSchema::Skipped(value) => plain(at, Ok(value@)),
                FieldSchema::Context { .. } => context_value(at, left),
            }
        }),
{
}

/// A skipped field is initialized with its value, and takes no bytes.
pub proof fn skipped_fields_are_initialized(
    fields: Seq<FieldSchema>,
    root: Schema,
    encoding: Encoding,
    buffer: Seq<u8>,
    pos: int,
    context: Option<Seq<char>>,
    n: nat,
    i: int,
)
    requires
        0 <= pos <= buffer.len(),
        0 <= i < n <= fields.len(),
        fields[i] is Skipped,
        decoded_fields(fields, root, encoding, buffer, pos, context, n).error is None,
    ensures
        decoded_fields(fields, root, encoding, buffer, pos, context, n).values[i]
            == fields[i]->Skipped_0@,
        decoded_fields(fields, root, encoding, buffer, pos, context, (i + 1) as nat).pos
            == decoded_fields(fields, root, encoding, buffer, pos, context, i as nat).pos,
{
    lemma_field_value(fields, root, encoding, buffer, pos, context, n, i);
    lemma_decoded_field(fields, root, encoding, buffer, pos, context, i);
}

/// A borrowed byte is the one of the buffer where the field begins, whatever is read before or
/// behind it.
pub proof fn borrowed_bytes_are_those_of_the_buffer(
    fields: Seq<FieldSchema>,
    root: Schema,
    encoding: Encoding,
    buffer: Seq<u8>,
    pos: int,
    context: Option<Seq<char>>,
    n: nat,
    i: int,
)
    requires
        0 <= pos <= buffer.len(),
        0 <= i < n <= fields.len(),
        fields[i] == FieldSchema::Wire(Schema::ByteRef),
        decoded_fields(fields, root, encoding, buffer, pos, context, n).error is None,
    ensures
        ({
            let at = decoded_fields(fields, root, encoding, buffer, pos, context, i as nat).pos;
            &&& pos <= at < buffer.len()
            &&& decoded_fields(fields, root, encoding, buffer, pos, context, n).values[i]
                == Val::Borrowed { byte: buffer[at], at }
        }),
{
    lemma_field_value(fields, root, encoding, buffer, pos, context, n, i);
    lemma_decoded_field(fields, root, encoding, buffer, pos, context, i);
    let at = decoded_fields(fields, root, encoding, buffer, pos, context, i as nat).pos;
    assert(decoded(Schema::ByteRef, root, encoding, buffer, at) == match byte_at(buffer, at) {
        (next, Ok(byte)) => plain(next, Ok(Val::Borrowed { byte, at })),
        (next, Err(error)) => plain(next, Err(error)),
    });
}

/// A context is used once: a field that takes it holds it, in a static or in a dynamic run,
/// and no other field takes it.
pub proof fn the_context_is_used_once(
    fields: Seq<FieldSchema>,
    root: Schema,
    encoding: Encoding,
    buffer: Seq<u8>,
    pos: int,
    context: Seq<char>,
    n: nat,
    i: int,
    j: int,
)
    requires
        0 <= pos <= buffer.len(),
        0 <= i < n <= fields.len(),
        0 <= j < n,
        fields[i] is Context,
        fields[j] is Context,
        decoded_fields(
            fields,
            root,
            encoding,
            buffer,
            pos,
            Some(context),
            n,
        ).error is None,
    ensures
        i == j,
        decoded_fields(fields, root, encoding, buffer, pos, Some(context), n).values[i]
            == Val::Text(context),
{
    let given = Some(context);
    lemma_context_field(fields, root, encoding, buffer, pos, given, n, i);
    lemma_context_field(fields, root, encoding, buffer, pos, given, n, j);
    if i < j {
        assert(0 <= i < j && fields[i] is Context);
    }
    if j < i {
        assert(0 <= j < i && fields[j] is Context);
    }
}

proof fn lemma_context_field(
    fields: Seq<FieldSchema>,
    root: Schema,
    encoding: Encoding,
    buffer: Seq<u8>,
    pos: int,
    context: Option<Seq<char>>,
    n: nat,
    i: int,
)
    requires
        0 <= pos <= buffer.len(),
        0 <= i < n <= fields.len(),
        fields[i] is Context,
        decoded_fields(fields, root, encoding, buffer, pos, context, n).error is None,
    ensures
        context_left(fields, context, i) is Some,
        decoded_fields(fields, root, encoding, buffer, pos, context, n).values[i] == Val::Text(
            context_left(fields, context, i)->Some_0,
        ),
{
    lemma_field_value(fields, root, encoding, buffer, pos, context, n, i);
    lemma_decoded_field(fields, root, encoding, buffer, pos, context, i);
}

/// The sizes of the fields of a run add up.
proof fn lemma_run_grows(
    fields: Seq<FieldSchema>,
    encoding: Encoding,
    start: int,
    end: int,
    k: int,
)
    requires
        fields_fit(fields, encoding),
        is_run(metas_of(fields, encoding), start, end),
        start <= k < end,
    ensures
        size_of_field(fields[k], encoding) is Some,
        run_size(metas_of(fields, encoding), start, k + 1) == run_size(
            metas_of(fields, encoding),
            start,
            k,
        ) + size_of_field(fields[k], encoding)->Some_0,
        run_size(metas_of(fields, encoding), start, k + 1) <= run_size(
            metas_of(fields, encoding),
            start,
            end,
        ),
{
    let metas = metas_of(fields, encoding);
    assert(metas[k] is Static);
    assert(field_fits(fields[k], encoding));
    if let FieldSchema::Wire(schema) = fields[k] {
        lemma_size_fits(schema, encoding);
    }
    let part = metas.subrange(start, k + 1);
    assert(part.drop_last() =~= metas.subrange(start, k));
    let whole = metas.subrange(start, end);
    assert(whole.take(k + 1 - start) =~= part);
    lemma_total_size_prefix(whole, k + 1 - start);
}

/// A value of a static type is read from as many bytes as its type says. If there are that
/// many, reading does not come to the end of the buffer, and never needs more of them.
pub proof fn static_values_are_read_from_their_size(
    schema: Schema,
    root: Schema,
    encoding: Encoding,
    buffer: Seq<u8>,
    pos: int,
)
    requires
        fits(schema, encoding),
        size_of(schema, encoding) is Some,
        0 <= pos,
        pos + size_of(schema, encoding)->Some_0 <= buffer.len(),
    ensures
        decoded(schema, root, encoding, buffer, pos).value != Err::<Val, ReadError>(
            ReadError::UnexpectedEnd,
        ),
        decoded(schema, root, encoding, buffer, pos).value is Ok ==> decoded(
            schema,
            root,
            encoding,
            buffer,
            pos,
        ).pos == pos + size_of(schema, encoding)->Some_0,
    decreases schema, 0nat,
{
    match schema {
        Schema::Int(width) => {
            lemma_int_at(buffer, pos, width, encoding);
        },
        Schema::Array(element, len) => {
            lemma_items_from_their_size(*element, root, encoding, buffer, pos, len as nat);
        },
        Schema::Struct(fields) => {
            let all = fields@;
            let metas = metas_of(all, encoding);
            assert(fields_fit(all, encoding));
            lemma_size_of_fields(all, encoding, all.len());
            assert(metas.take(all.len() as int) =~= metas);
            if all.len() > 0 {
                assert(metas.subrange(0, metas.len() as int) =~= metas);
                assert(is_run(metas, 0, metas.len() as int));
                lemma_run(metas, 0, metas.len() as int, 0);
                a_window_never_runs_out(
                    all,
                    root,
                    encoding,
                    buffer,
                    pos,
                    None,
                    0,
                    metas.len() as int,
                    metas.len() as int,
                );
            }
        },
        _ => {},
    }
}

proof fn lemma_items_from_their_size(
    schema: Schema,
    root: Schema,
    encoding: Encoding,
    buffer: Seq<u8>,
    pos: int,
    n: nat,
)
    requires
        fits(schema, encoding),
        size_of(schema, encoding) is Some,
        0 <= pos,
        pos + n * size_of(schema, encoding)->Some_0 <= buffer.len(),
    ensures
        decoded_items(schema, root, encoding, buffer, pos, n).error != Some(
            ReadError::UnexpectedEnd,
        ),
        decoded_items(schema, root, encoding, buffer, pos, n).error is None ==> decoded_items(
            schema,
            root,
            encoding,
            buffer,
            pos,
            n,
        ).pos == pos + n * size_of(schema, encoding)->Some_0,
    decreases schema, n,
{
    let size = size_of(schema, encoding)->Some_0;
    if n > 0 {
        assert(n * size == (n - 1) * size + size) by (nonlinear_arith);
        assert((n - 1) * size >= 0) by (nonlinear_arith)
            requires
                n > 0,
        ;
        lemma_items_from_their_size(schema, root, encoding, buffer, pos, (n - 1) as nat);
        let before = decoded_items(schema, root, encoding, buffer, pos, (n - 1) as nat);
        if before.error is None {
            static_values_are_read_from_their_size(schema, root, encoding, buffer, before.pos);
        }
    }
}

/// Once the window of a run is open, its fields are read from it: none of them comes to the
/// end of the buffer, and the fields up to `k` take as many bytes as their sizes add up to.
pub proof fn a_window_never_runs_out(
    fields: Seq<FieldSchema>,
    root: Schema,
    encoding: Encoding,
    buffer: Seq<u8>,
    pos: int,
    context: Option<Seq<char>>,
    start: int,
    end: int,
    k: int,
)
    requires
        fields_fit(fields, encoding),
        0 <= pos <= buffer.len(),
        is_run(metas_of(fields, encoding), start, end),
        start <= k <= end,
        decoded_fields(
            fields,
            root,
            encoding,
            buffer,
            pos,
            context,
            start as nat,
        ).error is None,
        decoded_fields(fields, root, encoding, buffer, pos, context, start as nat).pos
            + run_size(metas_of(fields, encoding), start, end) <= buffer.len(),
    ensures
        decoded_fields(fields, root, encoding, buffer, pos, context, k as nat).error != Some(
            ReadError::UnexpectedEnd,
        ),
        decoded_fields(
            fields,
            root,
            encoding,
            buffer,
            pos,
            context,
            k as nat,
        ).error is None ==> decoded_fields(
            fields,
            root,
            encoding,
            buffer,
            pos,
            context,
            k as nat,
        ).pos == decoded_fields(
            fields,
            root,
            encoding,
            buffer,
            pos,
            context,
            start as nat,
        ).pos + run_size(metas_of(fields, encoding), start, k),
    decreases fields, k,
{
    let metas = metas_of(fields, encoding);
    if k == start {
        assert(metas.subrange(start, k) =~= seq![]);
    } else {
        a_window_never_runs_out(
            fields,
            root,
            encoding,
            buffer,
            pos,
            context,
            start,
            end,
            k - 1,
        );
        lemma_run_grows(fields, encoding, start, end, k - 1);
        lemma_run(metas, start, end, k - 1);
        lemma_fields_ahead(fields, root, encoding, buffer, pos, context, start as nat);
        lemma_fields_ahead(fields, root, encoding, buffer, pos, context, (k - 1) as nat);
        let before = decoded_fields(fields, root, encoding, buffer, pos, context, (k - 1) as nat);
        assert(field_fits(fields[k - 1], encoding));
        lemma_decoded_field(fields, root, encoding, buffer, pos, context, k - 1);
        if before.error is None {
            if let FieldSchema::Wire(schema) = fields[k - 1] {
                assert(size_of(schema, encoding) == size_of_field(fields[k - 1], encoding));
                static_values_are_read_from_their_size(
                    schema,
                    root,
                    encoding,
                    buffer,
                    before.pos,
                );
            }
        }
    }
}

/// Whether each window is finished before anything else is recorded, and nothing else is
/// finished.
pub open spec fn all_finished(recorded: Seq<Event>) -> bool {
    &&& forall|i: int|
        0 <= i < recorded.len() && (#[trigger] recorded[i]) is Window ==> i + 1 < recorded.len()
            && recorded[i + 1] == Event::Finish
    &&& forall|i: int|
        0 <= i < recorded.len() && #[trigger] recorded[i] == Event::Finish ==> i > 0
            && recorded[i - 1] is Window
    &&& forall|i: int|
        0 <= i < recorded.len() ==> #[trigger] recorded[i] != Event::ParentFinish
}

/// Whether a window is opened last, and those before it are finished.
pub open spec fn last_is_open(recorded: Seq<Event>) -> bool {
    &&& recorded.len() > 0
    &&& recorded.last() is Window
    &&& all_finished(recorded.drop_last())
}

/// What is recorded one behind the other is finished if both parts are.
proof fn lemma_all_finished(first: Seq<Event>, second: Seq<Event>)
    requires
        all_finished(first),
        all_finished(second),
    ensures
        all_finished(first + second),
{
    let both = first + second;
    let n = first.len();
    assert forall|i: int| 0 <= i < both.len() && (#[trigger] both[i]) is Window implies i + 1
        < both.len() && both[i + 1] == Event::Finish by {
        if i < n {
            assert(first[i] is Window);
        } else {
            assert(second[i - n] is Window);
        }
    }
    assert forall|i: int|
        0 <= i < both.len() && #[trigger] both[i] == Event::Finish implies i > 0
        && both[i - 1] is Window by {
        if i < n {
            assert(first[i] == Event::Finish);
        } else {
            assert(second[i - n] == Event::Finish);
        }
    }
    assert forall|i: int| 0 <= i < both.len() implies #[trigger] both[i]
        != Event::ParentFinish by {
        if i < n {
            assert(first[i] != Event::ParentFinish);
        } else {
            assert(second[i - n] != Event::ParentFinish);
        }
    }
}

/// A window that is opened last and one that finishes it.
proof fn lemma_finish_last(recorded: Seq<Event>)
    requires
        last_is_open(recorded),
    ensures
        all_finished(recorded + seq![Event::Finish]),
{
    let init = recorded.drop_last();
    let pair = seq![recorded.last(), Event::Finish];
    assert(all_finished(pair));
    lemma_all_finished(init, pair);
    assert(recorded + seq![Event::Finish] =~= init + pair);
}

/// A window that is opened behind finished ones.
proof fn lemma_open_last(recorded: Seq<Event>, more: Seq<Event>)
    requires
        all_finished(recorded),
        last_is_open(more),
    ensures
        last_is_open(recorded + more),
{
    lemma_all_finished(recorded, more.drop_last());
    assert((recorded + more).drop_last() =~= recorded + more.drop_last());
}

/// Whether the fields before and behind `n` are in one run.
pub open spec fn inside_run(metas: Seq<TypeMeta>, n: int) -> bool {
    0 < n < metas.len() && metas[n - 1] is Static && metas[n] is Static
}

/// A window is finished before anything else is written. Only if a value fails a window may be
/// left open, and it is what is recorded last.
pub proof fn windows_are_finished_before_the_parent_resumes(
    schema: Schema,
    root: Schema,
    encoding: Encoding,
    val: Val,
)
    ensures
        encoded(schema, root, encoding, val).error is None ==> all_finished(
            events(schema, root, encoding, val),
        ),
        all_finished(events(schema, root, encoding, val)) || last_is_open(
            events(schema, root, encoding, val),
        ),
    decreases val, 0nat,
{
    match (schema, val) {
        (Schema::Struct(fields), Val::Struct(values)) => {
            if fields@.len() == values.len() {
                lemma_fields_finished(fields@, root, encoding, values, values.len());
            }
        },
        (Schema::Optional(inner), Val::Just(value)) => {
            windows_are_finished_before_the_parent_resumes(*inner, root, encoding, *value);
            let more = events(*inner, root, encoding, *value);
            lemma_behind_a_write(seq![1], more);
        },
        (Schema::List(element), Val::List(items)) => {
            lemma_items_finished(*element, root, encoding, items, items.len());
            lemma_behind_a_write(
                int_bytes(items.len(), Width::U64, encoding),
                events_of_items(*element, root, encoding, items, items.len()),
            );
        },
        (Schema::Children, Val::List(items)) => {
            lemma_items_finished(root, root, encoding, items, items.len());
            lemma_behind_a_write(
                int_bytes(items.len(), Width::U64, encoding),
                events_of_items(root, root, encoding, items, items.len()),
            );
        },
        (Schema::Array(element, len), Val::List(items)) => {
            if size_of(*element, encoding) is None && items.len() == len {
                lemma_items_finished(*element, root, encoding, items, items.len());
            }
        },
        _ => {},
    }
}

proof fn lemma_behind_a_write(bytes: Seq<u8>, more: Seq<Event>)
    ensures
        all_finished(more) ==> all_finished(write_event(bytes) + more),
        last_is_open(more) ==> last_is_open(write_event(bytes) + more),
{
    if all_finished(more) {
        lemma_all_finished(write_event(bytes), more);
    }
    if last_is_open(more) {
        lemma_open_last(write_event(bytes), more);
    }
}

proof fn lemma_items_finished(
    schema: Schema,
    root: Schema,
    encoding: Encoding,
    items: Seq<Val>,
    n: nat,
)
    requires
        n <= items.len(),
    ensures
        encoded_items(schema, root, encoding, items, n).error is None ==> all_finished(
            events_of_items(schema, root, encoding, items, n),
        ),
        all_finished(events_of_items(schema, root, encoding, items, n)) || last_is_open(
            events_of_items(schema, root, encoding, items, n),
        ),
    decreases items, n,
{
    if n > 0 {
        lemma_items_finished(schema, root, encoding, items, (n - 1) as nat);
        if encoded_items(schema, root, encoding, items, (n - 1) as nat).error is None {
            windows_are_finished_before_the_parent_resumes(schema, root, encoding, items[n - 1]);
            let before = events_of_items(schema, root, encoding, items, (n - 1) as nat);
            let more = events(schema, root, encoding, items[n - 1]);
            if all_finished(more) {
                lemma_all_finished(before, more);
            } else {
                lemma_open_last(before, more);
            }
        }
    }
}

proof fn lemma_fields_finished(
    fields: Seq<FieldSchema>,
    root: Schema,
    encoding: Encoding,
    values: Seq<Val>,
    n: nat,
)
    requires
        fields.len() == values.len(),
        n <= values.len(),
    ensures
        encoded_fields(fields, root, encoding, values, n).error is None ==> if inside_run(
            metas_of(fields, encoding),
            n as int,
        ) {
            last_is_open(events_of_fields(fields, root, encoding, values, n))
        } else {
            all_finished(events_of_fields(fields, root, encoding, values, n))
        },
        all_finished(events_of_fields(fields, root, encoding, values, n)) || last_is_open(
            events_of_fields(fields, root, encoding, values, n),
        ),
    decreases values, n,
{
    let metas = metas_of(fields, encoding);
    if n > 0 {
        let i = n - 1;
        let before = events_of_fields(fields, root, encoding, values, i as nat);
        lemma_fields_finished(fields, root, encoding, values, i as nat);
        if encoded_fields(fields, root, encoding, values, i as nat).error is None {
            let outcome = encoded_field(fields[i], root, encoding, values[i]);
            if size_of_field(fields[i], encoding) is Some {
                assert(metas[i] is Static);
                static_fields_are_in_a_run(metas, i);
                let start = run_start(metas, i);
                let end = run_end(metas, i);
                if start < i {
                    assert(metas[i - 1] is Static);
                    assert(before + opening(metas, i) =~= before);
                } else {
                    lemma_open_last(before, opening(metas, i));
                }
                let open = before + opening(metas, i);
                assert(last_is_open(open));
                if outcome.error is None {
                    if end == i + 1 {
                        lemma_finish_last(open);
                    } else {
                        assert(metas[i + 1] is Static);
                        assert(open + closing(metas, i) =~= open);
                    }
                } else {
                    assert(open + Seq::<Event>::empty() =~= open);
                }
            } else if let FieldSchema::Wire(schema) = fields[i] {
                windows_are_finished_before_the_parent_resumes(
                    schema,
                    root,
                    encoding,
                    values[i],
                );
                assert(outcome == encoded(schema, root, encoding, values[i]));
                let more = events(schema, root, encoding, values[i]);
                if all_finished(more) {
                    lemma_all_finished(before, more);
                } else {
                    lemma_open_last(before, more);
                }
            }
        }
    }
}

/// The fields of a run that are written take as many bytes as the window of the run has room
/// for.
pub proof fn windows_are_filled(
    fields: Seq<FieldSchema>,
    root: Schema,
    encoding: Encoding,
    values: Seq<Val>,
    start: int,
    end: int,
    k: int,
)
    requires
        fields_fit(fields, encoding),
        fields.len() == values.len(),
        is_run(metas_of(fields, encoding), start, end),
        start <= k <= end,
        encoded_fields(fields, root, encoding, values, k as nat).error is None,
    ensures
        encoded_fields(fields, root, encoding, values, start as nat).error is None,
        encoded_fields(fields, root, encoding, values, k as nat).bytes.len() == encoded_fields(
            fields,
            root,
            encoding,
            values,
            start as nat,
        ).bytes.len() + run_size(metas_of(fields, encoding), start, k),
    decreases k,
{
    let metas = metas_of(fields, encoding);
    if k == start {
        assert(metas.subrange(start, k) =~= seq![]);
    } else {
        windows_are_filled(fields, root, encoding, values, start, end, k - 1);
        lemma_run_grows(fields, encoding, start, end, k - 1);
        lemma_field_size(fields[k - 1], root, encoding, values[k - 1]);
    }
}

/// A field that fails is the last: what was written of it and of those before it is all that
/// is written.
pub proof fn a_failing_field_is_the_last(
    fields: Seq<FieldSchema>,
    root: Schema,
    encoding: Encoding,
    values: Seq<Val>,
    i: int,
)
    requires
        fields.len() == values.len(),
        0 <= i < values.len(),
        encoded_fields(fields, root, encoding, values, i as nat).error is None,
        encoded_field(fields[i], root, encoding, values[i]).error is Some,
    ensures
        encoded_fields(fields, root, encoding, values, values.len()) == (Encoded {
            bytes: encoded_fields(fields, root, encoding, values, i as nat).bytes
                + encoded_field(fields[i], root, encoding, values[i]).bytes,
            error: encoded_field(fields[i], root, encoding, values[i]).error,
        }),
        events_of_fields(fields, root, encoding, values, values.len()) == events_of_fields(
            fields,
            root,
            encoding,
            values,
            (i + 1) as nat,
        ),
        size_of_field(fields[i], encoding) is Some ==> last_is_open(
            events_of_fields(fields, root, encoding, values, values.len()),
        ),
{
    lemma_fields_stop(fields, root, encoding, values, (i + 1) as nat, values.len());
    lemma_events_stop(fields, root, encoding, values, (i + 1) as nat, values.len());
    if size_of_field(fields[i], encoding) is Some {
        let metas = metas_of(fields, encoding);
        let before = events_of_fields(fields, root, encoding, values, i as nat);
        lemma_fields_finished(fields, root, encoding, values, i as nat);
        assert(metas[i] is Static);
        static_fields_are_in_a_run(metas, i);
        if run_start(metas, i) < i {
            assert(metas[i - 1] is Static);
            assert(before + opening(metas, i) + Seq::<Event>::empty() =~= before);
        } else {
            lemma_open_last(before, opening(metas, i));
            assert(before + opening(metas, i) + Seq::<Event>::empty() =~= before + opening(
                metas,
                i,
            ));
        }
    }
}

/// Whether the value is one of the type that reading can give: it holds no borrowed bytes, no
/// context and nothing that can only be written, and its skipped fields hold what they are
/// initialized with.
pub open spec fn is_restorable(schema: Schema, root: Schema, val: Val) -> bool
    decreases val, 0nat,
{
    match (schema, val) {
        (Schema::Unit, Val::Unit) => true,
        (Schema::Bool, Val::Bool(_)) => true,
        (Schema::Int(width), Val::Int(n)) => n < capacity(bytes_of(width)),
        (Schema::DynamicByte, Val::Byte(_)) => true,
        (Schema::Array(element, len), Val::List(items)) => items.len() == len
            && are_restorable(*element, root, items),
        (Schema::Optional(_), Val::Nothing) => true,
        (Schema::Optional(inner), Val::Just(value)) => is_restorable(*inner, root, *value),
        (Schema::List(element), Val::List(items)) => items.len() <= u64::MAX
            && are_restorable(*element, root, items),
        (Schema::Children, Val::List(items)) => items.len() <= u64::MAX && are_restorable(
            root,
            root,
            items,
        ),
        (Schema::Struct(fields), Val::Struct(values)) => fields@.len() == values.len()
            && fields_restorable(fields@, root, values),
        _ => false,
    }
}

/// Whether the values are ones of the type that reading can give.
pub open spec fn are_restorable(schema: Schema, root: Schema, items: Seq<Val>) -> bool
    decreases items, 0nat,
{
    forall|i: int| 0 <= i < items.len() ==> is_restorable(schema, root, #[trigger] items[i])
}

/// Whether the value of a field is one that reading can give.
pub open spec fn field_restorable(field: FieldSchema, root: Schema, val: Val) -> bool
    decreases val, 1nat,
{
    match field {
        FieldSchema::Wire(schema) => is_restorable(schema, root, val),
        FieldSchema::Skipped(value) => val == value@,
        FieldSchema::Context { .. } => false,
    }
}

/// Whether the values of fields are ones that reading can give.
pub open spec fn fields_restorable(
    fields: Seq<FieldSchema>,
    root: Schema,
    values: Seq<Val>,
) -> bool
    decreases values, 0nat,
{
    forall|i: int|
        0 <= i < values.len() ==> field_restorable(fields[i], root, #[trigger] values[i])
}

/// Whether the bytes stand at the position.
pub open spec fn stands_at(buffer: Seq<u8>, pos: int, bytes: Seq<u8>) -> bool {
    &&& 0 <= pos
    &&& pos + bytes.len() <= buffer.len()
    &&& buffer.subrange(pos, pos + bytes.len()) == bytes
}

/// The sizes of the windows that are recorded.
pub open spec fn windows_in(recorded: Seq<Event>) -> Seq<usize>
    decreases recorded.len(),
{
    if recorded.len() == 0 {
        seq![]
    } else {
        match recorded.last() {
            Event::Window(size) => windows_in(recorded.drop_last()).push(size),
            _ => windows_in(recorded.drop_last()),
        }
    }
}

proof fn lemma_windows_in(first: Seq<Event>, second: Seq<Event>)
    ensures
        windows_in(first + second) == windows_in(first) + windows_in(second),
    decreases second.len(),
{
    if second.len() == 0 {
        assert(first + second =~= first);
        assert(windows_in(first) + windows_in(second) =~= windows_in(first));
    } else {
        lemma_windows_in(first, second.drop_last());
        assert((first + second).drop_last() =~= first + second.drop_last());
        assert(windows_in(first + second) =~= windows_in(first) + windows_in(second));
    }
}

/// Nothing is opened for bytes that are written outside of windows.
proof fn lemma_no_windows_in(bytes: Seq<u8>, more: Seq<Event>)
    ensures
        windows_in(write_event(bytes)) == Seq::<usize>::empty(),
        windows_in(write_event(bytes) + more) == windows_in(more),
{
    reveal_with_fuel(windows_in, 2);
    let one = write_event(bytes);
    if one.len() > 0 {
        assert(one.drop_last() =~= seq![]);
    }
    lemma_windows_in(one, more);
    assert(windows_in(one) + windows_in(more) =~= windows_in(more));
}

/// What stands at a position, by its parts.
proof fn lemma_stands_at(buffer: Seq<u8>, pos: int, first: Seq<u8>, second: Seq<u8>)
    requires
        stands_at(buffer, pos, first + second),
    ensures
        stands_at(buffer, pos, first),
        stands_at(buffer, pos + first.len(), second),
{
    let both = first + second;
    let here = buffer.subrange(pos, pos + both.len());
    assert(buffer.subrange(pos, pos + first.len()) =~= first) by {
        assert forall|i: int| 0 <= i < first.len() implies buffer[pos + i] == first[i] by {
            assert(here[i] == both[i]);
        }
    }
    let next = pos + first.len();
    assert(buffer.subrange(next, next + second.len()) =~= second) by {
        assert forall|i: int| 0 <= i < second.len() implies buffer[next + i] == second[i] by {
            assert(here[first.len() + i] == both[first.len() + i]);
        }
    }
}

/// A value that can be restored is written as a whole.
pub proof fn restorable_values_are_written(
    schema: Schema,
    root: Schema,
    encoding: Encoding,
    val: Val,
)
    requires
        is_restorable(schema, root, val),
    ensures
        encoded(schema, root, encoding, val).error is None,
    decreases val, 0nat,
{
    match (schema, val) {
        (Schema::Array(element, len), Val::List(items)) => {
            assert(are_restorable(*element, root, items));
            lemma_items_written(*element, root, encoding, items, items.len());
        },
        (Schema::Optional(inner), Val::Just(value)) => {
            restorable_values_are_written(*inner, root, encoding, *value);
        },
        (Schema::List(element), Val::List(items)) => {
            assert(are_restorable(*element, root, items));
            lemma_items_written(*element, root, encoding, items, items.len());
        },
        (Schema::Children, Val::List(items)) => {
            assert(are_restorable(root, root, items));
            lemma_items_written(root, root, encoding, items, items.len());
        },
        (Schema::Struct(fields), Val::Struct(values)) => {
            assert(fields_restorable(fields@, root, values));
            lemma_fields_written(fields@, root, encoding, values, values.len());
        },
        _ => {},
    }
}

proof fn lemma_items_written(
    schema: Schema,
    root: Schema,
    encoding: Encoding,
    items: Seq<Val>,
    n: nat,
)
    requires
        are_restorable(schema, root, items),
        n <= items.len(),
    ensures
        encoded_items(schema, root, encoding, items, n).error is None,
    decreases items, n,
{
    if n > 0 {
        lemma_items_written(schema, root, encoding, items, (n - 1) as nat);
        assert(is_restorable(schema, root, items[n - 1]));
        restorable_values_are_written(schema, root, encoding, items[n - 1]);
    }
}

proof fn lemma_fields_written(
    fields: Seq<FieldSchema>,
    root: Schema,
    encoding: Encoding,
    values: Seq<Val>,
    n: nat,
)
    requires
        fields.len() == values.len(),
        fields_restorable(fields, root, values),
        n <= values.len(),
    ensures
        encoded_fields(fields, root, encoding, values, n).error is None,
    decreases values, n,
{
    if n > 0 {
        lemma_fields_written(fields, root, encoding, values, (n - 1) as nat);
        assert(field_restorable(fields[n - 1], root, values[n - 1]));
        let outcome = encoded_field(fields[n - 1], root, encoding, values[n - 1]);
        if let FieldSchema::Wire(schema) = fields[n - 1] {
            assert(is_restorable(schema, root, values[n - 1]));
            restorable_values_are_written(schema, root, encoding, values[n - 1]);
            assert(outcome == encoded(schema, root, encoding, values[n - 1]));
        } else {
            assert(outcome.error is None);
        }
    }
}

/// What is written of some fields is the beginning of what is written of more.
proof fn lemma_fields_begin(
    fields: Seq<FieldSchema>,
    root: Schema,
    encoding: Encoding,
    values: Seq<Val>,
    n: nat,
    more: nat,
    buffer: Seq<u8>,
    pos: int,
)
    requires
        n <= more <= values.len(),
        encoded_fields(fields, root, encoding, values, more).error is None,
        stands_at(buffer, pos, encoded_fields(fields, root, encoding, values, more).bytes),
    ensures
        encoded_fields(fields, root, encoding, values, n).error is None,
        stands_at(buffer, pos, encoded_fields(fields, root, encoding, values, n).bytes),
        encoded_fields(fields, root, encoding, values, n).bytes.len() <= encoded_fields(
            fields,
            root,
            encoding,
            values,
            more,
        ).bytes.len(),
    decreases more,
{
    if n < more {
        let before = encoded_fields(fields, root, encoding, values, (more - 1) as nat);
        let last = encoded_field(fields[more - 1], root, encoding, values[more - 1]);
        lemma_stands_at(buffer, pos, before.bytes, last.bytes);
        lemma_fields_begin(fields, root, encoding, values, n, (more - 1) as nat, buffer, pos);
    }
}

/// What is written is read back, from wherever it stands: the value is the same, everything
/// that was written is read, and the windows that are opened are those that were opened when
/// it was written.
#[verifier::rlimit(40)]
pub proof fn what_is_written_is_read_back(
    schema: Schema,
    root: Schema,
    encoding: Encoding,
    val: Val,
    buffer: Seq<u8>,
    pos: int,
)
    requires
        fits(schema, encoding),
        fits(root, encoding),
        is_restorable(schema, root, val),
        stands_at(buffer, pos, encoded(schema, root, encoding, val).bytes),
    ensures
        encoded(schema, root, encoding, val).error is None,
        decoded(schema, root, encoding, buffer, pos) == (Decoded {
            pos: pos + encoded(schema, root, encoding, val).bytes.len(),
            windows: windows_in(events(schema, root, encoding, val)),
            value: Ok(val),
        }),
    decreases val, 0nat,
{
    let bytes = encoded(schema, root, encoding, val).bytes;
    let here = buffer.subrange(pos, pos + bytes.len());
    restorable_values_are_written(schema, root, encoding, val);
    lemma_no_windows_in(bytes, seq![]);
    match (schema, val) {
        (Schema::Unit, Val::Unit) => {},
        (Schema::Bool, Val::Bool(_)) => {
            assert(here[0] == bytes[0]);
        },
        (Schema::Int(width), Val::Int(n)) => {
            integers_are_read_back(n, width, encoding, buffer, pos);
        },
        (Schema::DynamicByte, Val::Byte(_)) => {
            assert(here[0] == bytes[0]);
        },
        (Schema::Array(element, len), Val::List(items)) => {
            assert(are_restorable(*element, root, items));
            lemma_items_read_back(*element, root, encoding, items, items.len(), buffer, pos);
            assert(items.take(items.len() as int) =~= items);
        },
        (Schema::Optional(inner), Val::Nothing) => {
            assert(here[0] == bytes[0]);
        },
        (Schema::Optional(inner), Val::Just(value)) => {
            assert(here[0] == bytes[0]);
            lemma_stands_at(buffer, pos, seq![1], encoded(*inner, root, encoding, *value).bytes);
            what_is_written_is_read_back(*inner, root, encoding, *value, buffer, pos + 1);
            lemma_no_windows_in(seq![1], events(*inner, root, encoding, *value));
        },
        (Schema::List(element), Val::List(items)) => {
            assert(are_restorable(*element, root, items));
            lemma_list_read_back(*element, root, encoding, items, buffer, pos);
        },
        (Schema::Children, Val::List(items)) => {
            assert(are_restorable(root, root, items));
            lemma_list_read_back(root, root, encoding, items, buffer, pos);
        },
        (Schema::Struct(fields), Val::Struct(values)) => {
            assert(fields_fit(fields@, encoding));
            assert(fields_restorable(fields@, root, values));
            lemma_fields_read_back(fields@, root, encoding, values, values.len(), buffer, pos);
            assert(values.take(values.len() as int) =~= values);
        },
        _ => {},
    }
}

proof fn lemma_list_read_back(
    element: Schema,
    root: Schema,
    encoding: Encoding,
    items: Seq<Val>,
    buffer: Seq<u8>,
    pos: int,
)
    requires
        fits(element, encoding),
        fits(root, encoding),
        items.len() <= u64::MAX,
        are_restorable(element, root, items),
        stands_at(
            buffer,
            pos,
            int_bytes(items.len(), Width::U64, encoding) + encoded_items(
                element,
                root,
                encoding,
                items,
                items.len(),
            ).bytes,
        ),
    ensures
        ({
            let prefix = int_bytes(items.len(), Width::U64, encoding);
            let more = encoded_items(element, root, encoding, items, items.len());
            let next = pos + prefix.len();
            &&& int_at(buffer, pos, Width::U64, encoding) == (next, Ok::<nat, ReadError>(
                items.len(),
            ))
            &&& pos < next <= buffer.len()
            &&& as_list(decoded_items(element, root, encoding, buffer, next, items.len()))
                == Decoded {
                pos: next + more.bytes.len(),
                windows: windows_in(
                    write_event(prefix) + events_of_items(
                        element,
                        root,
                        encoding,
                        items,
                        items.len(),
                    ),
                ),
                value: Ok(Val::List(items)),
            }
        }),
    decreases items, items.len() + 1,
{
    let prefix = int_bytes(items.len(), Width::U64, encoding);
    let more = encoded_items(element, root, encoding, items, items.len());
    lemma_capacities();
    lemma_int_bytes_len(items.len(), Width::U64, encoding);
    lemma_stands_at(buffer, pos, prefix, more.bytes);
    integers_are_read_back(items.len(), Width::U64, encoding, buffer, pos);
    lemma_items_read_back(
        element,
        root,
        encoding,
        items,
        items.len(),
        buffer,
        pos + prefix.len(),
    );
    assert(items.take(items.len() as int) =~= items);
    lemma_no_windows_in(
        prefix,
        events_of_items(element, root, encoding, items, items.len()),
    );
}

proof fn lemma_items_read_back(
    schema: Schema,
    root: Schema,
    encoding: Encoding,
    items: Seq<Val>,
    n: nat,
    buffer: Seq<u8>,
    pos: int,
)
    requires
        fits(schema, encoding),
        fits(root, encoding),
        are_restorable(schema, root, items),
        n <= items.len(),
        stands_at(buffer, pos, encoded_items(schema, root, encoding, items, n).bytes),
    ensures
        decoded_items(schema, root, encoding, buffer, pos, n) == (Several {
            pos: pos + encoded_items(schema, root, encoding, items, n).bytes.len(),
            windows: windows_in(events_of_items(schema, root, encoding, items, n)),
            values: items.take(n as int),
            error: None,
        }),
    decreases items, n,
{
    lemma_items_written(schema, root, encoding, items, n);
    if n == 0 {
        assert(items.take(0) =~= seq![]);
    } else {
        let before = encoded_items(schema, root, encoding, items, (n - 1) as nat);
        let last = encoded(schema, root, encoding, items[n - 1]);
        lemma_items_written(schema, root, encoding, items, (n - 1) as nat);
        lemma_stands_at(buffer, pos, before.bytes, last.bytes);
        lemma_items_read_back(schema, root, encoding, items, (n - 1) as nat, buffer, pos);
        assert(is_restorable(schema, root, items[n - 1]));
        what_is_written_is_read_back(
            schema,
            root,
            encoding,
            items[n - 1],
            buffer,
            pos + before.bytes.len(),
        );
        lemma_windows_in(
            events_of_items(schema, root, encoding, items, (n - 1) as nat),
            events(schema, root, encoding, items[n - 1]),
        );
        assert(items.take(n as int) =~= items.take(n - 1).push(items[n - 1]));
    }
}

/// The next field is read back behind those before it.
proof fn lemma_field_read_back(
    fields: Seq<FieldSchema>,
    root: Schema,
    encoding: Encoding,
    values: Seq<Val>,
    i: int,
    buffer: Seq<u8>,
    at: int,
)
    requires
        fits(root, encoding),
        field_fits(fields[i], encoding),
        0 <= i < values.len(),
        field_restorable(fields[i], root, values[i]),
        stands_at(buffer, at, encoded_field(fields[i], root, encoding, values[i]).bytes),
    ensures
        ({
            let next = decoded_field(fields[i], root, encoding, buffer, at, None);
            let outcome = encoded_field(fields[i], root, encoding, values[i]);
            &&& outcome.error is None
            &&& next.pos == at + outcome.bytes.len()
            &&& next.value == Ok::<Val, ReadError>(values[i])
            &&& fields[i] matches FieldSchema::Wire(schema) ==> next.windows == windows_in(
                events(schema, root, encoding, values[i]),
            )
        }),
    decreases values, 0nat,
{
    let next = decoded_field(fields[i], root, encoding, buffer, at, None);
    let outcome = encoded_field(fields[i], root, encoding, values[i]);
    if let FieldSchema::Wire(schema) = fields[i] {
        assert(is_restorable(schema, root, values[i]));
        assert(outcome == encoded(schema, root, encoding, values[i]));
        assert(next == decoded(schema, root, encoding, buffer, at));
        what_is_written_is_read_back(schema, root, encoding, values[i], buffer, at);
    } else {
        assert(fields[i] is Skipped);
        assert(outcome == written(seq![]));
    }
}

/// Nothing is left of no context.
proof fn lemma_no_context(fields: Seq<FieldSchema>, i: int)
    ensures
        context_left(fields, None, i) is None,
{
}

/// The window of the field at `i`, if one is opened for it, is no larger than what is left.
proof fn lemma_window_is_left(
    fields: Seq<FieldSchema>,
    root: Schema,
    encoding: Encoding,
    values: Seq<Val>,
    i: int,
    buffer: Seq<u8>,
    pos: int,
)
    requires
        fields_fit(fields, encoding),
        fields.len() == values.len(),
        0 <= i < values.len(),
        encoded_fields(fields, root, encoding, values, values.len()).error is None,
        stands_at(
            buffer,
            pos,
            encoded_fields(fields, root, encoding, values, values.len()).bytes,
        ),
    ensures
        !runs_out(
            metas_of(fields, encoding),
            i,
            buffer,
            pos + encoded_fields(fields, root, encoding, values, i as nat).bytes.len(),
        ),
{
    let metas = metas_of(fields, encoding);
    if opens(metas, i) {
        static_fields_are_in_a_run(metas, i);
        let end = run_end(metas, i);
        lemma_fields_begin(
            fields,
            root,
            encoding,
            values,
            end as nat,
            values.len(),
            buffer,
            pos,
        );
        windows_are_filled(fields, root, encoding, values, i, end, end);
    }
}

#[verifier::rlimit(40)]
proof fn lemma_fields_read_back(
    fields: Seq<FieldSchema>,
    root: Schema,
    encoding: Encoding,
    values: Seq<Val>,
    n: nat,
    buffer: Seq<u8>,
    pos: int,
)
    requires
        fields_fit(fields, encoding),
        fits(root, encoding),
        fields.len() == values.len(),
        fields_restorable(fields, root, values),
        n <= values.len(),
        stands_at(
            buffer,
            pos,
            encoded_fields(fields, root, encoding, values, values.len()).bytes,
        ),
    ensures
        decoded_fields(fields, root, encoding, buffer, pos, None, n) == (Several {
            pos: pos + encoded_fields(fields, root, encoding, values, n).bytes.len(),
            windows: windows_in(events_of_fields(fields, root, encoding, values, n)),
            values: values.take(n as int),
            error: None,
        }),
    decreases values, n + 1,
{
    lemma_fields_written(fields, root, encoding, values, values.len());
    if n == 0 {
        assert(values.take(0) =~= seq![]);
    } else {
        let i = n - 1;
        let metas = metas_of(fields, encoding);
        let before = encoded_fields(fields, root, encoding, values, i as nat);
        let at = pos + before.bytes.len();
        let recorded = events_of_fields(fields, root, encoding, values, i as nat);
        lemma_fields_read_back(fields, root, encoding, values, i as nat, buffer, pos);
        lemma_fields_begin(fields, root, encoding, values, n, values.len(), buffer, pos);
        lemma_fields_begin(fields, root, encoding, values, i as nat, n, buffer, pos);
        lemma_stands_at(
            buffer,
            pos,
            before.bytes,
            encoded_field(fields[i], root, encoding, values[i]).bytes,
        );
        assert(field_restorable(fields[i], root, values[i]));
        assert(field_fits(fields[i], encoding));
        lemma_field_read_back(fields, root, encoding, values, i, buffer, at);
        lemma_no_context(fields, i);
        lemma_window_is_left(fields, root, encoding, values, i, buffer, pos);
        assert(values.take(n as int) =~= values.take(i).push(values[i]));
        lemma_recorded_windows(fields, root, encoding, values, i);
    }
}

/// The windows that are recorded for the field at `i`.
proof fn lemma_recorded_windows(
    fields: Seq<FieldSchema>,
    root: Schema,
    encoding: Encoding,
    values: Seq<Val>,
    i: int,
)
    requires
        fields.len() == values.len(),
        0 <= i < values.len(),
        encoded_fields(fields, root, encoding, values, i as nat).error is None,
        encoded_field(fields[i], root, encoding, values[i]).error is None,
    ensures
        ({
            let metas = metas_of(fields, encoding);
            let before = windows_in(events_of_fields(fields, root, encoding, values, i as nat));
            let after = windows_in(
                events_of_fields(fields, root, encoding, values, (i + 1) as nat),
            );
            if metas[i] is Static {
                after == if opens(metas, i) {
                    before.push(window_size(metas, i) as usize)
                } else {
                    before
                }
            } else {
                after == match fields[i] {
                    FieldSchema::Wire(schema) => before + windows_in(
                        events(schema, root, encoding, values[i]),
                    ),
                    _ => before,
                }
            }
        }),
{
    let metas = metas_of(fields, encoding);
    let recorded = events_of_fields(fields, root, encoding, values, i as nat);
    let after = events_of_fields(fields, root, encoding, values, (i + 1) as nat);
    if metas[i] is Static {
        assert(size_of_field(fields[i], encoding) is Some);
        lemma_windows_in(recorded, opening(metas, i));
        lemma_windows_in(recorded + opening(metas, i), closing(metas, i));
        lemma_opening_windows(metas, i);
        assert(after == recorded + opening(metas, i) + closing(metas, i));
        if opens(metas, i) {
            assert(windows_in(after) =~= windows_in(recorded).push(
                window_size(metas, i) as usize,
            ));
        } else {
            assert(windows_in(after) =~= windows_in(recorded));
        }
    } else if let FieldSchema::Wire(schema) = fields[i] {
        lemma_windows_in(recorded, events(schema, root, encoding, values[i]));
    }
}

proof fn lemma_opening_windows(metas: Seq<TypeMeta>, i: int)
    ensures
        windows_in(opening(metas, i)) == if run_start(metas, i) == i {
            seq![run_size(metas, i, run_end(metas, i)) as usize]
        } else {
            seq![]
        },
        windows_in(closing(metas, i)) == Seq::<usize>::empty(),
{
    reveal_with_fuel(windows_in, 2);
    if run_start(metas, i) == i {
        assert(opening(metas, i).drop_last() =~= seq![]);
        assert(windows_in(opening(metas, i)) =~= seq![
            run_size(metas, i, run_end(metas, i)) as usize,
        ]);
    }
    if run_end(metas, i) == i + 1 {
        assert(closing(metas, i).drop_last() =~= seq![]);
    }
}

/// The bytes of a value of a declaration are read back as that value.
pub proof fn serialized_values_are_deserialized(schema: Schema, encoding: Encoding, val: Val)
    requires
        fits(schema, encoding),
        is_restorable(schema, schema, val),
    ensures
        encoded(schema, schema, encoding, val).error is None,
        decoded(
            schema,
            schema,
            encoding,
            encoded(schema, schema, encoding, val).bytes,
            0,
        ).value == Ok::<Val, ReadError>(val),
{
    let bytes = encoded(schema, schema, encoding, val).bytes;
    assert(bytes.subrange(0, bytes.len() as int) =~= bytes);
    what_is_written_is_read_back(schema, schema, encoding, val, bytes, 0);
}

/// A value of a type of no bytes, such as a declaration of nothing but skipped and empty
/// fields, is written as nothing and read back from nothing.
pub proof fn values_of_no_bytes_are_read_from_nothing(
    schema: Schema,
    encoding: Encoding,
    val: Val,
)
    requires
        fits(schema, encoding),
        size_of(schema, encoding) == Some(0nat),
        is_restorable(schema, schema, val),
    ensures
        encoded(schema, schema, encoding, val) == written(seq![]),
        decoded(schema, schema, encoding, seq![], 0).value == Ok::<Val, ReadError>(val),
{
    restorable_values_are_written(schema, schema, encoding, val);
    static_values_fill_their_size(schema, schema, encoding, val);
    assert(encoded(schema, schema, encoding, val).bytes =~= seq![]);
    serialized_values_are_deserialized(schema, encoding, val);
}

/// Where integers are encoded in fewer bytes if they are small, those of one byte stay static,
/// and all wider ones become dynamic.
pub proof fn only_wider_integers_become_dynamic(width: Width)
    ensures
        size_of(Schema::Int(width), Encoding::Fixed) == Some(bytes_of(width)),
        size_of(Schema::Int(width), Encoding::Varint) == if width == Width::U8 {
            Some(1nat)
        } else {
            None
        },
{
}

/// The number of bytes that is recorded: that of the windows and of what is written outside of
/// them.
pub open spec fn recorded_size(recorded: Seq<Event>) -> nat
    decreases recorded.len(),
{
    if recorded.len() == 0 {
        0
    } else {
        recorded_size(recorded.drop_last()) + match recorded.last() {
            Event::Window(size) => size as nat,
            Event::ParentWrite(size) => size as nat,
            _ => 0nat,
        }
    }
}

proof fn lemma_recorded_size(first: Seq<Event>, second: Seq<Event>)
    ensures
        recorded_size(first + second) == recorded_size(first) + recorded_size(second),
    decreases second.len(),
{
    if second.len() == 0 {
        assert(first + second =~= first);
    } else {
        lemma_recorded_size(first, second.drop_last());
        assert((first + second).drop_last() =~= first + second.drop_last());
    }
}

proof fn lemma_recorded_write(bytes: Seq<u8>)
    requires
        bytes.len() <= usize::MAX,
    ensures
        recorded_size(write_event(bytes)) == bytes.len(),
{
    reveal_with_fuel(recorded_size, 2);
    let one = write_event(bytes);
    if one.len() > 0 {
        assert(one.drop_last() =~= seq![]);
    }
}

/// Everything that is written is recorded: the windows and what is written outside of them add
/// up to the bytes of the value.
pub proof fn every_byte_is_recorded(
    schema: Schema,
    root: Schema,
    encoding: Encoding,
    val: Val,
)
    requires
        fits(schema, encoding),
        fits(root, encoding),
        encoded(schema, root, encoding, val).error is None,
        encoded(schema, root, encoding, val).bytes.len() <= usize::MAX,
    ensures
        recorded_size(events(schema, root, encoding, val)) == encoded(
            schema,
            root,
            encoding,
            val,
        ).bytes.len(),
    decreases val, 0nat,
{
    let bytes = encoded(schema, root, encoding, val).bytes;
    lemma_recorded_write(bytes);
    match (schema, val) {
        (Schema::Struct(fields), Val::Struct(values)) => {
            assert(fields_fit(fields@, encoding));
            lemma_fields_recorded(fields@, root, encoding, values, values.len());
        },
        (Schema::Optional(inner), Val::Just(value)) => {
            lemma_recorded_write(seq![1]);
            every_byte_is_recorded(*inner, root, encoding, *value);
            lemma_recorded_size(
                write_event(seq![1]),
                events(*inner, root, encoding, *value),
            );
        },
        (Schema::List(element), Val::List(items)) => {
            let prefix = int_bytes(items.len(), Width::U64, encoding);
            lemma_recorded_write(prefix);
            lemma_items_recorded(*element, root, encoding, items, items.len());
            lemma_recorded_size(
                write_event(prefix),
                events_of_items(*element, root, encoding, items, items.len()),
            );
        },
        (Schema::Children, Val::List(items)) => {
            let prefix = int_bytes(items.len(), Width::U64, encoding);
            lemma_recorded_write(prefix);
            lemma_items_recorded(root, root, encoding, items, items.len());
            lemma_recorded_size(
                write_event(prefix),
                events_of_items(root, root, encoding, items, items.len()),
            );
        },
        (Schema::Array(element, len), Val::List(items)) => {
            if size_of(*element, encoding) is None && items.len() == len {
                lemma_items_recorded(*element, root, encoding, items, items.len());
            }
        },
        _ => {},
    }
}

proof fn lemma_items_recorded(
    schema: Schema,
    root: Schema,
    encoding: Encoding,
    items: Seq<Val>,
    n: nat,
)
    requires
        fits(schema, encoding),
        fits(root, encoding),
        n <= items.len(),
        encoded_items(schema, root, encoding, items, n).error is None,
        encoded_items(schema, root, encoding, items, n).bytes.len() <= usize::MAX,
    ensures
        recorded_size(events_of_items(schema, root, encoding, items, n)) == encoded_items(
            schema,
            root,
            encoding,
            items,
            n,
        ).bytes.len(),
    decreases items, n,
{
    if n > 0 {
        lemma_items_recorded(schema, root, encoding, items, (n - 1) as nat);
        every_byte_is_recorded(schema, root, encoding, items[n - 1]);
        lemma_recorded_size(
            events_of_items(schema, root, encoding, items, (n - 1) as nat),
            events(schema, root, encoding, items[n - 1]),
        );
    }
}

/// The number of bytes that is recorded of the first `n` fields: inside of a run, the whole of
/// it is recorded already.
#[verifier::rlimit(40)]
proof fn lemma_fields_recorded(
    fields: Seq<FieldSchema>,
    root: Schema,
    encoding: Encoding,
    values: Seq<Val>,
    n: nat,
)
    requires
        fields_fit(fields, encoding),
        fits(root, encoding),
        fields.len() == values.len(),
        n <= values.len(),
        encoded_fields(fields, root, encoding, values, n).error is None,
        encoded_fields(fields, root, encoding, values, n).bytes.len() <= usize::MAX,
    ensures
        ({
            let metas = metas_of(fields, encoding);
            let start = run_start(metas, n as int);
            recorded_size(events_of_fields(fields, root, encoding, values, n))
                == encoded_fields(fields, root, encoding, values, n).bytes.len() + if inside_run(
                metas,
                n as int,
            ) {
                run_size(metas, start, run_end(metas, n as int)) - run_size(
                    metas,
                    start,
                    n as int,
                )
            } else {
                0
            }
        }),
    decreases values, n,
{
    let metas = metas_of(fields, encoding);
    if n > 0 {
        let i = n - 1;
        let before = events_of_fields(fields, root, encoding, values, i as nat);
        let outcome = encoded_field(fields[i], root, encoding, values[i]);
        lemma_fields_recorded(fields, root, encoding, values, i as nat);
        if size_of_field(fields[i], encoding) is Some {
            assert(metas[i] is Static);
            static_fields_are_in_a_run(metas, i);
            let start = run_start(metas, i);
            let end = run_end(metas, i);
            lemma_recorded_size(before, opening(metas, i));
            lemma_recorded_size(before + opening(metas, i), closing(metas, i));
            lemma_recorded_opening(fields, encoding, i);
            lemma_run_grows(fields, encoding, start, end, i);
            lemma_field_size(fields[i], root, encoding, values[i]);
            if start == i {
                assert(metas.subrange(i, i) =~= seq![]);
                assert(!inside_run(metas, i));
            } else {
                assert(metas[i - 1] is Static);
                assert(inside_run(metas, i));
            }
            if end == n {
                assert(!inside_run(metas, n as int));
            } else {
                assert(metas[n as int] is Static);
                lemma_run(metas, start, end, n as int);
            }
        } else {
            assert(metas[i] is Dynamic);
            assert(field_fits(fields[i], encoding));
            if let FieldSchema::Wire(schema) = fields[i] {
                assert(outcome == encoded(schema, root, encoding, values[i]));
                every_byte_is_recorded(schema, root, encoding, values[i]);
                lemma_recorded_size(before, events(schema, root, encoding, values[i]));
            } else {
                assert(outcome.error is Some);
            }
        }
    }
}

proof fn lemma_recorded_opening(fields: Seq<FieldSchema>, encoding: Encoding, i: int)
    requires
        fields_fit(fields, encoding),
        0 <= i < fields.len(),
        metas_of(fields, encoding)[i] is Static,
    ensures
        ({
            let metas = metas_of(fields, encoding);
            recorded_size(opening(metas, i)) == if run_start(metas, i) == i {
                run_size(metas, i, run_end(metas, i))
            } else {
                0
            }
        }),
        recorded_size(closing(metas_of(fields, encoding), i)) == 0,
{
    reveal_with_fuel(recorded_size, 2);
    let metas = metas_of(fields, encoding);
    static_fields_are_in_a_run(metas, i);
    if run_start(metas, i) == i {
        assert(opening(metas, i).drop_last() =~= seq![]);
        assert(run_size(metas, i, run_end(metas, i)) <= usize::MAX);
    }
    if run_end(metas, i) == i + 1 {
        assert(closing(metas, i).drop_last() =~= seq![]);
    }
}

/// What is written of the first values does not depend on those behind them.
proof fn lemma_items_prefix(
    schema: Schema,
    root: Schema,
    encoding: Encoding,
    items: Seq<Val>,
    val: Val,
    n: nat,
)
    requires
        n <= items.len(),
    ensures
        encoded_items(schema, root, encoding, items.push(val), n) == encoded_items(
            schema,
            root,
            encoding,
            items,
            n,
        ),
    decreases n,
{
    if n > 0 {
        lemma_items_prefix(schema, root, encoding, items, val, (n - 1) as nat);
        assert(items.push(val)[n - 1] == items[n - 1]);
    }
}

/// What is written of the first fields does not depend on those behind them.
proof fn lemma_fields_prefix(
    fields: Seq<FieldSchema>,
    root: Schema,
    encoding: Encoding,
    values: Seq<Val>,
    val: Val,
    n: nat,
)
    requires
        n <= values.len(),
    ensures
        encoded_fields(fields, root, encoding, values.push(val), n) == encoded_fields(
            fields,
            root,
            encoding,
            values,
            n,
        ),
    decreases n,
{
    if n > 0 {
        lemma_fields_prefix(fields, root, encoding, values, val, (n - 1) as nat);
        assert(values.push(val)[n - 1] == values[n - 1]);
    }
}

/// What is read is written back: where integers are of fixed width, the bytes of a value that is
/// read are those that it is read from, no more and no fewer.
#[verifier::rlimit(40)]
pub proof fn what_is_read_is_written_back(
    schema: Schema,
    root: Schema,
    buffer: Seq<u8>,
    pos: int,
)
    requires
        0 <= pos <= buffer.len(),
    ensures
        decoded(schema, root, Encoding::Fixed, buffer, pos).value matches Ok(val) ==> encoded(
            schema,
            root,
            Encoding::Fixed,
            val,
        ) == (Encoded {
            bytes: buffer.subrange(
                pos,
                decoded(schema, root, Encoding::Fixed, buffer, pos).pos,
            ),
            error: None,
        }),
    decreases buffer.len() - pos, schema, 0nat,
{
    let fixed = Encoding::Fixed;
    let outcome = decoded(schema, root, fixed, buffer, pos);
    if let Ok(val) = outcome.value {
        reading_goes_ahead(schema, root, fixed, buffer, pos);
        let bytes = buffer.subrange(pos, outcome.pos);
        match schema {
            Schema::Unit => {
                assert(bytes =~= seq![]);
            },
            Schema::Bool => {
                assert(bytes =~= seq![buffer[pos]]);
            },
            Schema::DynamicByte => {
                assert(bytes =~= seq![buffer[pos]]);
            },
            Schema::ByteRef => {
                assert(bytes =~= seq![buffer[pos]]);
            },
            Schema::Int(width) => {
                fixed_integers_are_those_of_their_bytes(buffer, pos, width, fixed);
                lemma_int_at(buffer, pos, width, fixed);
            },
            Schema::Foreign(_) => {},
            Schema::Array(element, len) => {
                lemma_items_written_back(*element, root, buffer, pos, len as nat);
            },
            Schema::Optional(inner) => {
                if buffer[pos] == 0 {
                    assert(bytes =~= seq![0u8]);
                } else {
                    what_is_read_is_written_back(*inner, root, buffer, pos + 1);
                    reading_goes_ahead(*inner, root, fixed, buffer, pos + 1);
                    assert(bytes =~= seq![1u8] + buffer.subrange(pos + 1, outcome.pos));
                }
            },
            Schema::List(element) => {
                let (next, len) = int_at(buffer, pos, Width::U64, fixed);
                lemma_int_at(buffer, pos, Width::U64, fixed);
                lemma_items_written_back(*element, root, buffer, next, len->Ok_0);
                lemma_list_written_back(*element, root, buffer, pos);
            },
            Schema::Children => {
                let (next, len) = int_at(buffer, pos, Width::U64, fixed);
                lemma_int_at(buffer, pos, Width::U64, fixed);
                lemma_items_written_back(root, root, buffer, next, len->Ok_0);
                lemma_list_written_back(root, root, buffer, pos);
            },
            Schema::Struct(fields) => {
                lemma_fields_written_back(fields@, root, buffer, pos, fields@.len());
            },
        }
    }
}

/// The number of the values of a list is written back in front of them.
proof fn lemma_list_written_back(element: Schema, root: Schema, buffer: Seq<u8>, pos: int)
    requires
        0 <= pos <= buffer.len(),
        ({
            let (next, len) = int_at(buffer, pos, Width::U64, Encoding::Fixed);
            let read = decoded_items(element, root, Encoding::Fixed, buffer, next, len->Ok_0);
            &&& len is Ok
            &&& is_ahead(buffer, next, read.pos)
            &&& read.values.len() == len->Ok_0
            &&& encoded_items(element, root, Encoding::Fixed, read.values, len->Ok_0) == (Encoded {
                bytes: buffer.subrange(next, read.pos),
                error: None,
            })
        }),
    ensures
        ({
            let (next, len) = int_at(buffer, pos, Width::U64, Encoding::Fixed);
            let read = decoded_items(element, root, Encoding::Fixed, buffer, next, len->Ok_0);
            let all = encoded_items(
                element,
                root,
                Encoding::Fixed,
                read.values,
                read.values.len(),
            );
            int_bytes(read.values.len(), Width::U64, Encoding::Fixed) + all.bytes
                == buffer.subrange(pos, read.pos)
        }),
{
    let (next, len) = int_at(buffer, pos, Width::U64, Encoding::Fixed);
    let end = decoded_items(element, root, Encoding::Fixed, buffer, next, len->Ok_0).pos;
    fixed_integers_are_those_of_their_bytes(buffer, pos, Width::U64, Encoding::Fixed);
    assert(buffer.subrange(pos, next) + buffer.subrange(next, end) =~= buffer.subrange(pos, end));
}

/// Values are written back one behind the other.
proof fn lemma_items_written_back(
    schema: Schema,
    root: Schema,
    buffer: Seq<u8>,
    pos: int,
    n: nat,
)
    requires
        0 <= pos <= buffer.len(),
    ensures
        ({
            let read = decoded_items(schema, root, Encoding::Fixed, buffer, pos, n);
            &&& is_ahead(buffer, pos, read.pos)
            &&& read.error is None ==> read.values.len() == n && encoded_items(
                schema,
                root,
                Encoding::Fixed,
                read.values,
                n,
            ) == (Encoded { bytes: buffer.subrange(pos, read.pos), error: None })
        }),
    decreases buffer.len() - pos, schema, n + 1,
{
    let fixed = Encoding::Fixed;
    let read = decoded_items(schema, root, fixed, buffer, pos, n);
    if n == 0 {
        assert(buffer.subrange(pos, pos) =~= seq![]);
    } else {
        let last = (n - 1) as nat;
        lemma_items_written_back(schema, root, buffer, pos, last);
        let before = decoded_items(schema, root, fixed, buffer, pos, last);
        if before.error is None {
            reading_goes_ahead(schema, root, fixed, buffer, before.pos);
            what_is_read_is_written_back(schema, root, buffer, before.pos);
            if let Ok(val) = decoded(schema, root, fixed, buffer, before.pos).value {
                lemma_items_prefix(schema, root, fixed, before.values, val, last);
                assert(read.values == before.values.push(val));
                assert(read.values[last as int] == val);
                assert(buffer.subrange(pos, before.pos) + buffer.subrange(before.pos, read.pos)
                    =~= buffer.subrange(pos, read.pos));
            }
        }
    }
}

/// Fields are written back one behind the other.
#[verifier::rlimit(40)]
proof fn lemma_fields_written_back(
    fields: Seq<FieldSchema>,
    root: Schema,
    buffer: Seq<u8>,
    pos: int,
    n: nat,
)
    requires
        0 <= pos <= buffer.len(),
        n <= fields.len(),
    ensures
        ({
            let read = decoded_fields(fields, root, Encoding::Fixed, buffer, pos, None, n);
            &&& is_ahead(buffer, pos, read.pos)
            &&& read.error is None ==> read.values.len() == n && encoded_fields(
                fields,
                root,
                Encoding::Fixed,
                read.values,
                n,
            ) == (Encoded { bytes: buffer.subrange(pos, read.pos), error: None })
        }),
    decreases buffer.len() - pos, fields, n,
{
    let fixed = Encoding::Fixed;
    let read = decoded_fields(fields, root, fixed, buffer, pos, None, n);
    lemma_fields_ahead(fields, root, fixed, buffer, pos, None, n);
    if n == 0 {
        assert(buffer.subrange(pos, pos) =~= seq![]);
    } else {
        let last = (n - 1) as nat;
        lemma_fields_written_back(fields, root, buffer, pos, last);
        let before = decoded_fields(fields, root, fixed, buffer, pos, None, last);
        if before.error is None && read.error is None {
            let field = fields[last as int];
            let left = context_left(fields, None, last as int);
            let next = decoded_field(field, root, fixed, buffer, before.pos, left);
            assert(next.value is Ok);
            let val = next.value->Ok_0;
            assert(read.values == before.values.push(val));
            assert(read.pos == next.pos);
            match field {
                FieldSchema::Wire(schema) => {
                    assert(next == decoded(schema, root, fixed, buffer, before.pos));
                    reading_goes_ahead(schema, root, fixed, buffer, before.pos);
                    what_is_read_is_written_back(schema, root, buffer, before.pos);
                    assert(encoded_field(field, root, fixed, val) == encoded(
                        schema,
                        root,
                        fixed,
                        val,
                    ));
                },
                FieldSchema::Skipped(value) => {
                    assert(next == plain(before.pos, Ok(value@)));
                    assert(buffer.subrange(before.pos, next.pos) =~= seq![]);
                    assert(encoded_field(field, root, fixed, val) == written(seq![]));
                },
                FieldSchema::Context { .. } => {
                    assert(left is None);
                    assert(next == context_value(before.pos, left));
                },
            }
            lemma_fields_prefix(fields, root, fixed, before.values, val, last);
            assert(read.values[last as int] == val);
            assert(buffer.subrange(pos, before.pos) + buffer.subrange(before.pos, read.pos)
                =~= buffer.subrange(pos, read.pos));
        }
    }
}

/// What is read alike is read from the same bytes: where integers are of fixed width, no two
/// texts of bytes stand for the same value.
pub proof fn different_bytes_are_read_as_different_values(
    schema: Schema,
    root: Schema,
    buffer: Seq<u8>,
    other: Seq<u8>,
    pos: int,
)
    requires
        0 <= pos <= buffer.len(),
        0 <= pos <= other.len(),
        decoded(schema, root, Encoding::Fixed, buffer, pos).value is Ok,
        decoded(schema, root, Encoding::Fixed, other, pos).value == decoded(
            schema,
            root,
            Encoding::Fixed,
            buffer,
            pos,
        ).value,
    ensures
        ({
            let end = decoded(schema, root, Encoding::Fixed, buffer, pos).pos;
            let other_end = decoded(schema, root, Encoding::Fixed, other, pos).pos;
            buffer.subrange(pos, end) == other.subrange(pos, other_end)
        }),
{
    what_is_read_is_written_back(schema, root, buffer, pos);
    what_is_read_is_written_back(schema, root, other, pos);
}

} // verus!
