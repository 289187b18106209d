//! Declarations as they are serialized: the types of fields, their values and their sizes.

use crate::meta::{all_static, runs_fit, total_size, TypeMeta};
use crate::text::opt_text;
use crate::wire::{bytes_of, is_fixed, Encoding, Width};
use vstd::prelude::*;

verus! {

/// A type that can be read or written.
#[derive(Debug, PartialEq, Eq)]
pub enum Schema {
    Unit,
    Bool,
    /// An unsigned integer.
    Int(Width),
    /// A byte of which it is not said that it is one byte.
    DynamicByte,
    /// A reference to a byte of the buffer that is read.
    ByteRef,
    /// A type with an implementation of its own, which can only be written, and writes this
    /// many bytes if it succeeds.
    Foreign(usize),
    /// As many values as the number says.
    Array(Box<Schema>, usize),
    /// A value or none.
    Optional(Box<Schema>),
    /// Values behind their number.
    List(Box<Schema>),
    /// A declaration with its fields.
    Struct(Vec<FieldSchema>),
    /// Values of the outermost declaration behind their number.
    Children,
}

/// A field of a declaration.
#[derive(Debug, PartialEq, Eq)]
pub enum FieldSchema {
    /// A field that is read and written.
    Wire(Schema),
    /// A field that is neither read nor written, and initialized with the value.
    Skipped(Value<'static>),
    /// A field that takes the context that the declaration is read with.
    Context {
        /// Whether it is said that the field takes no bytes.
        is_static: bool,
    },
}

/// A byte of which it is not said that it is one byte.
#[derive(Debug, Clone, Copy, PartialEq, Eq, Structural)]
pub struct DynamicByte(pub u8);

/// A value that is read or written.
#[derive(Debug, PartialEq, Eq)]
pub enum Value<'a> {
    Unit,
    Bool(bool),
    Int(u64),
    Byte(DynamicByte),
    /// A text that is not read or written: a default or a context.
    Text(String),
    /// A byte of the buffer that was read, and where it stands.
    Borrowed { byte: &'a u8, at: usize },
    /// What an implementation of its own writes, and why it fails behind that.
    Foreign { bytes: Vec<u8>, failure: Option<String> },
    Nothing,
    Just(Box<Value<'a>>),
    List(Vec<Value<'a>>),
    Struct(Vec<Value<'a>>),
}

/// The view of a value.
pub ghost enum Val {
    Unit,
    Bool(bool),
    Int(nat),
    Byte(u8),
    Text(Seq<char>),
    Borrowed { byte: u8, at: int },
    Foreign { bytes: Seq<u8>, failure: Option<Seq<char>> },
    Nothing,
    Just(Box<Val>),
    List(Seq<Val>),
    Struct(Seq<Val>),
}

impl<'a> Value<'a> {
    pub open spec fn val(self) -> Val
        decreases self,
    {
        match self {
            Value::Unit => Val::Unit,
            Value::Bool(yes) => Val::Bool(yes),
            Value::Int(n) => Val::Int(n as nat),
            Value::Byte(byte) => Val::Byte(byte.0),
            Value::Text(text) => Val::Text(text@),
            Value::Borrowed { byte, at } => Val::Borrowed { byte: *byte, at: at as int },
            Value::Foreign { bytes, failure } => Val::Foreign {
                bytes: bytes@,
                failure: opt_text(failure),
            },
            Value::Nothing => Val::Nothing,
            Value::Just(value) => Val::Just(Box::new((*value).val())),
            Value::List(items) => Val::List(vals(items@)),
            Value::Struct(fields) => Val::Struct(vals(fields@)),
        }
    }
}

/// The views of values.
pub open spec fn vals(values: Seq<Value>) -> Seq<Val>
    decreases values,
{
    Seq::new(
        values.len(),
        |i: int|
            if 0 <= i < values.len() {
                values[i].val()
            } else {
                arbitrary()
            },
    )
}

impl<'a> View for Value<'a> {
    type V = Val;

    open spec fn view(&self) -> Val {
        self.val()
    }
}

/// The views of values with one more.
pub(crate) proof fn lemma_vals_push(values: Seq<Value>, value: Value)
    ensures
        vals(values.push(value)) == vals(values).push(value@),
{
    assert(vals(values.push(value)) =~= vals(values).push(value@));
}

impl<'a> Value<'a> {
    /// A copy of the value.
    pub fn copy(&self) -> (copy: Value<'a>)
        ensures
            copy@ == self@,
        decreases self,
    {
        match self {
            Value::Unit => Value::Unit,
            Value::Bool(yes) => Value::Bool(*yes),
            Value::Int(n) => Value::Int(*n),
            Value::Byte(byte) => Value::Byte(*byte),
            Value::Text(text) => Value::Text(text.clone()),
            Value::Borrowed { byte, at } => Value::Borrowed { byte: *byte, at: *at },
            Value::Foreign { bytes, failure } => {
                let failure_copy = match failure {
                    Some(text) => Some(text.clone()),
                    None => None,
                };
                let bytes_copy: Vec<u8> = bytes.clone();
                assert(bytes_copy@ =~= bytes@);
                Value::Foreign { bytes: bytes_copy, failure: failure_copy }
            },
            Value::Nothing => Value::Nothing,
            Value::Just(value) => Value::Just(Box::new((**value).copy())),
            Value::List(items) => {
                let mut copies: Vec<Value<'a>> = Vec::new();
                let mut i: usize = 0;
                while i < items.len()
                    invariant
                        self matches Value::List(all) && all == items,
                        i <= items.len(),
                        vals(copies@) =~= vals(items@).take(i as int),
                    decreases items.len() - i,
                {
                    assert(decreases_to!(self => items[i as int]));
                    let copy = items[i].copy();
                    proof {
                        lemma_vals_push(copies@, copy);
                    }
                    copies.push(copy);
                    i += 1;
                }
                assert(vals(items@).take(i as int) =~= vals(items@));
                Value::List(copies)
            },
            Value::Struct(fields) => {
                let mut copies: Vec<Value<'a>> = Vec::new();
                let mut i: usize = 0;
                while i < fields.len()
                    invariant
                        self matches Value::Struct(all) && all == fields,
                        i <= fields.len(),
                        vals(copies@) =~= vals(fields@).take(i as int),
                    decreases fields.len() - i,
                {
                    assert(decreases_to!(self => fields[i as int]));
                    let copy = fields[i].copy();
                    proof {
                        lemma_vals_push(copies@, copy);
                    }
                    copies.push(copy);
                    i += 1;
                }
                assert(vals(fields@).take(i as int) =~= vals(fields@));
                Value::Struct(copies)
            },
        }
    }
}

/// The number of bytes that every value of the type takes; `None` where it depends on the
/// value.
pub open spec fn size_of(schema: Schema, encoding: Encoding) -> Option<nat>
    decreases schema, 0nat,
{
    match schema {
        Schema::Unit => Some(0),
        Schema::Bool => Some(1),
        Schema::Int(width) => if is_fixed(width, encoding) {
            Some(bytes_of(width))
        } else {
            None
        },
        Schema::DynamicByte => None,
        Schema::ByteRef => Some(1),
        Schema::Foreign(size) => Some(size as nat),
        Schema::Array(element, len) => match size_of(*element, encoding) {
            Some(size) => Some(len as nat * size),
            None => None,
        },
        Schema::Optional(_) => None,
        Schema::List(_) => None,
        Schema::Struct(fields) => size_of_fields(fields@, encoding, fields@.len()),
        Schema::Children => None,
    }
}

/// The number of bytes that the field always takes.
pub open spec fn size_of_field(field: FieldSchema, encoding: Encoding) -> Option<nat>
    decreases field, 0nat,
{
    match field {
        FieldSchema::Wire(schema) => size_of(schema, encoding),
        FieldSchema::Skipped(_) => Some(0),
        FieldSchema::Context { is_static } => if is_static {
            Some(0)
        } else {
            None
        },
    }
}

/// The number of bytes that the first `n` fields always take.
pub open spec fn size_of_fields(fields: Seq<FieldSchema>, encoding: Encoding, n: nat) -> Option<
    nat,
>
    decreases fields, n,
{
    if n == 0 || n > fields.len() {
        Some(0)
    } else {
        match (
            size_of_fields(fields, encoding, (n - 1) as nat),
            size_of_field(fields[n - 1], encoding),
        ) {
            (Some(before), Some(size)) => Some(before + size),
            _ => None,
        }
    }
}

/// The metadata of a type that takes that many bytes. Its form in memory is not looked at.
pub open spec fn meta_of(size: Option<nat>) -> TypeMeta {
    match size {
        Some(size) => TypeMeta::Static { size: size as usize, zero_copy: false },
        None => TypeMeta::Dynamic,
    }
}

/// The metadata of fields.
pub open spec fn metas_of(fields: Seq<FieldSchema>, encoding: Encoding) -> Seq<TypeMeta> {
    Seq::new(fields.len(), |i: int| meta_of(size_of_field(fields[i], encoding)))
}

/// Whether a size fits a `usize`.
pub open spec fn size_fits(size: Option<nat>) -> bool {
    size matches Some(size) ==> size <= usize::MAX
}

/// Whether all sizes that are known ahead of time fit a `usize`.
pub open spec fn fits(schema: Schema, encoding: Encoding) -> bool
    decreases schema,
{
    match schema {
        Schema::Array(element, _) => fits(*element, encoding) && size_fits(
            size_of(schema, encoding),
        ),
        Schema::Optional(inner) => fits(*inner, encoding),
        Schema::List(element) => fits(*element, encoding),
        Schema::Struct(fields) => fields_fit(fields@, encoding),
        _ => true,
    }
}

/// Whether all sizes of the field that are known ahead of time fit a `usize`.
pub open spec fn field_fits(field: FieldSchema, encoding: Encoding) -> bool
    decreases field,
{
    field matches FieldSchema::Wire(schema) ==> fits(schema, encoding)
}

/// Whether all sizes of the fields that are known ahead of time fit a `usize`.
pub open spec fn fields_fit(fields: Seq<FieldSchema>, encoding: Encoding) -> bool
    decreases fields,
{
    &&& forall|i: int| 0 <= i < fields.len() ==> field_fits(#[trigger] fields[i], encoding)
    &&& runs_fit(metas_of(fields, encoding))
    &&& size_fits(size_of_fields(fields, encoding, fields.len()))
}

/// The size of a type whose sizes fit does so too.
pub(crate) proof fn lemma_size_fits(schema: Schema, encoding: Encoding)
    requires
        fits(schema, encoding),
    ensures
        size_fits(size_of(schema, encoding)),
{
    if let Schema::Struct(fields) = schema {
        assert(fields_fit(fields@, encoding));
    }
}

/// The sum of the sizes of fields, by their metadata.
pub(crate) proof fn lemma_size_of_fields(fields: Seq<FieldSchema>, encoding: Encoding, n: nat)
    requires
        n <= fields.len(),
        forall|i: int| 0 <= i < fields.len() ==> field_fits(#[trigger] fields[i], encoding),
    ensures
        all_static(metas_of(fields, encoding).take(n as int)) <==> size_of_fields(
            fields,
            encoding,
            n,
        ) is Some,
        size_of_fields(fields, encoding, n) matches Some(size) ==> size == total_size(
            metas_of(fields, encoding).take(n as int),
        ),
    decreases n,
{
    let metas = metas_of(fields, encoding);
    if n > 0 {
        let before = (n - 1) as nat;
        lemma_size_of_fields(fields, encoding, before);
        assert(metas.take(n as int).drop_last() =~= metas.take(n - 1));
        assert(field_fits(fields[n - 1], encoding));
        if let FieldSchema::Wire(schema) = fields[n - 1] {
            lemma_size_fits(schema, encoding);
        }
        if all_static(metas.take(n as int)) {
            assert(metas.take(n as int)[n - 1] is Static);
            assert forall|i: int| 0 <= i < n - 1 implies (#[trigger] metas.take(
                n - 1,
            )[i]) is Static by {
                assert(metas.take(n as int)[i] is Static);
            }
        } else if all_static(metas.take(n - 1)) {
            assert forall|i: int| 0 <= i < n - 1 implies (#[trigger] metas.take(
                n as int,
            )[i]) is Static by {
                assert(metas.take(n - 1)[i] is Static);
            }
        }
    }
}

impl Schema {
    /// What is known of the serialized form of the type ahead of time.
    pub fn meta(&self, encoding: Encoding) -> (meta: TypeMeta)
        requires
            fits(*self, encoding),
        ensures
            meta == meta_of(size_of(*self, encoding)),
        decreases self,
    {
        match self {
            Schema::Unit => TypeMeta::Static { size: 0, zero_copy: false },
            Schema::Bool => TypeMeta::Static { size: 1, zero_copy: false },
            Schema::Int(width) => {
                if width.is_fixed(encoding) {
                    TypeMeta::Static { size: width.bytes(), zero_copy: false }
                } else {
                    TypeMeta::Dynamic
                }
            },
            Schema::DynamicByte => TypeMeta::Dynamic,
            Schema::ByteRef => TypeMeta::Static { size: 1, zero_copy: false },
            Schema::Foreign(size) => TypeMeta::Static { size: *size, zero_copy: false },
            Schema::Array(element, len) => {
                proof {
                    lemma_size_fits(**element, encoding);
                }
                match element.meta(encoding) {
                    TypeMeta::Static { size, .. } => TypeMeta::Static {
                        size: *len * size,
                        zero_copy: false,
                    },
                    TypeMeta::Dynamic => TypeMeta::Dynamic,
                }
            },
            Schema::Optional(_) => TypeMeta::Dynamic,
            Schema::List(_) => TypeMeta::Dynamic,
            Schema::Struct(fields) => {
                let metas = field_metas(fields, encoding);
                proof {
                    assert(fields_fit(fields@, encoding));
                    lemma_size_of_fields(fields@, encoding, fields@.len());
                    assert(metas@.take(fields@.len() as int) =~= metas@);
                }
                TypeMeta::join_types(&metas).keep_zero_copy(false)
            },
            Schema::Children => TypeMeta::Dynamic,
        }
    }
}

impl FieldSchema {
    /// What is known of the serialized form of the field ahead of time.
    pub fn meta(&self, encoding: Encoding) -> (meta: TypeMeta)
        requires
            field_fits(*self, encoding),
        ensures
            meta == meta_of(size_of_field(*self, encoding)),
        decreases self,
    {
        match self {
            FieldSchema::Wire(schema) => schema.meta(encoding),
            FieldSchema::Skipped(_) => TypeMeta::Static { size: 0, zero_copy: false },
            FieldSchema::Context { is_static } => {
                if *is_static {
                    TypeMeta::Static { size: 0, zero_copy: false }
                } else {
                    TypeMeta::Dynamic
                }
            },
        }
    }
}

/// The metadata of fields in the order of their declaration.
pub fn field_metas(fields: &Vec<FieldSchema>, encoding: Encoding) -> (metas: Vec<TypeMeta>)
    requires
        fields_fit(fields@, encoding),
    ensures
        metas@ == metas_of(fields@, encoding),
    decreases fields,
{
    let mut metas: Vec<TypeMeta> = Vec::new();
    let mut i: usize = 0;
    while i < fields.len()
        invariant
            i <= fields.len(),
            fields_fit(fields@, encoding),
            metas@ =~= metas_of(fields@, encoding).take(i as int),
        decreases fields.len() - i,
    {
        assert(decreases_to!(fields => fields[i as int]));
        assert(field_fits(fields@[i as int], encoding));
        metas.push(fields[i].meta(encoding));
        i += 1;
    }
    metas
}

/// The types whose values all take the same number of bytes, and how many: none for a unit, one
/// for a `bool` and for a borrowed byte, as many as they are wide for integers that are fixed,
/// what it says for a type with an implementation of its own, and for an array of such values as
/// many times theirs as it is long. What is behind a number or a tag is not static, nor is an
/// integer of variable width.
pub proof fn sizes_are_those_of_the_types(
    width: Width,
    size: usize,
    element: Box<Schema>,
    len: usize,
    encoding: Encoding,
)
    ensures
        size_of(Schema::Unit, encoding) == Some(0nat),
        size_of(Schema::Bool, encoding) == Some(1nat),
        size_of(Schema::ByteRef, encoding) == Some(1nat),
        size_of(Schema::DynamicByte, encoding) is None,
        size_of(Schema::Int(width), Encoding::Fixed) == Some(bytes_of(width)),
        size_of(Schema::Int(Width::U8), encoding) == Some(1nat),
        width != Width::U8 ==> size_of(Schema::Int(width), Encoding::Varint) is None,
        size_of(Schema::Foreign(size), encoding) == Some(size as nat),
        size_of(*element, encoding) is None ==> size_of(
            Schema::Array(element, len),
            encoding,
        ) is None,
        size_of(*element, encoding) matches Some(each) ==> size_of(
            Schema::Array(element, len),
            encoding,
        ) == Some(len as nat * each),
        size_of(Schema::Optional(element), encoding) is None,
        size_of(Schema::List(element), encoding) is None,
        size_of(Schema::Children, encoding) is None,
{
}

/// What is known of a field ahead of time is what is known of its type. A skipped field takes no
/// bytes, and nor does one that takes the context if that is said of it.
pub proof fn fields_are_as_static_as_their_types(
    fields: Seq<FieldSchema>,
    encoding: Encoding,
    i: int,
)
    requires
        0 <= i < fields.len(),
        field_fits(fields[i], encoding),
    ensures
        metas_of(fields, encoding).len() == fields.len(),
        match fields[i] {
            FieldSchema::Wire(schema) => match (
                metas_of(fields, encoding)[i],
                size_of(schema, encoding),
            ) {
                (TypeMeta::Static { size, zero_copy }, Some(bytes)) => size == bytes && !zero_copy,
                (TypeMeta::Dynamic, None) => true,
                _ => false,
            },
            FieldSchema::Skipped(_) => metas_of(fields, encoding)[i] == (TypeMeta::Static {
                size: 0,
                zero_copy: false,
            }),
            FieldSchema::Context { is_static } => metas_of(fields, encoding)[i] == if is_static {
                TypeMeta::Static { size: 0, zero_copy: false }
            } else {
                TypeMeta::Dynamic
            },
        },
{
    if let FieldSchema::Wire(schema) = fields[i] {
        lemma_size_fits(schema, encoding);
    }
}

/// A declaration is static exactly if each of its fields is, and takes as many bytes as all of
/// them.
pub proof fn declarations_are_as_large_as_their_fields(fields: Vec<FieldSchema>, encoding: Encoding)
    requires
        fits(Schema::Struct(fields), encoding),
    ensures
        size_of(Schema::Struct(fields), encoding) is Some <==> forall|i: int|
            0 <= i < fields@.len() ==> (#[trigger] metas_of(fields@, encoding)[i]) is Static,
        size_of(Schema::Struct(fields), encoding) matches Some(size) ==> size == total_size(
            metas_of(fields@, encoding),
        ),
{
    let metas = metas_of(fields@, encoding);
    assert(fields_fit(fields@, encoding));
    lemma_size_of_fields(fields@, encoding, fields@.len());
    assert(metas.take(fields@.len() as int) =~= metas);
    assert(size_of(Schema::Struct(fields), encoding) == size_of_fields(
        fields@,
        encoding,
        fields@.len(),
    ));
}

/// The view of a value is the value, with the views of its parts, each of them and in order.
pub proof fn views_are_those_of_the_values(value: Value, i: int)
    ensures
        match (value, value@) {
            (Value::Unit, Val::Unit) => true,
            (Value::Bool(yes), Val::Bool(of)) => of == yes,
            (Value::Int(n), Val::Int(of)) => of == n,
            (Value::Byte(byte), Val::Byte(of)) => of == byte.0,
            (Value::Text(text), Val::Text(of)) => of == text@,
            (Value::Borrowed { byte, at }, Val::Borrowed { byte: of, at: stands }) => of == *byte
                && stands == at,
            (
                Value::Foreign { bytes, failure },
                Val::Foreign { bytes: of, failure: reason },
            ) => of == bytes@ && match (failure, reason) {
                (Some(text), Some(of_text)) => of_text == text@,
                (None, None) => true,
                _ => false,
            },
            (Value::Nothing, Val::Nothing) => true,
            (Value::Just(inner), Val::Just(of)) => *of == (*inner)@,
            (Value::List(items), Val::List(of)) => of.len() == items@.len() && (0 <= i < of.len()
                ==> of[i] == items@[i]@),
            (Value::Struct(items), Val::Struct(of)) => of.len() == items@.len() && (0 <= i
                < of.len() ==> of[i] == items@[i]@),
            _ => false,
        },
{
    match value {
        Value::Just(inner) => {
            assert(value@ == Val::Just(Box::new((*inner).val())));
        },
        Value::List(items) => {
            assert(value@ == Val::List(vals(items@)));
            if 0 <= i < items@.len() {
                assert(vals(items@)[i] == items@[i]@);
            }
        },
        Value::Struct(items) => {
            assert(value@ == Val::Struct(vals(items@)));
            if 0 <= i < items@.len() {
                assert(vals(items@)[i] == items@[i]@);
            }
        },
        _ => {},
    }
}

/// A field takes as many bytes as its type says. A skipped field takes none, and one that takes
/// the context none if that is said of it.
pub proof fn sizes_of_fields_are_those_of_their_types(
    schema: Schema,
    value: Value<'static>,
    encoding: Encoding,
)
    ensures
        size_of_field(FieldSchema::Wire(schema), encoding) == size_of(schema, encoding),
        size_of_field(FieldSchema::Skipped(value), encoding) == Some(0nat),
        size_of_field(FieldSchema::Context { is_static: true }, encoding) == Some(0nat),
        size_of_field(FieldSchema::Context { is_static: false }, encoding) is None,
{
    assert(size_of_field(FieldSchema::Wire(schema), encoding) == size_of(schema, encoding));
}

} // verus!
