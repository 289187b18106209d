//! The arguments of the derives.

use crate::field::{new_segment, new_wrapper, plain_segment, Field};
use crate::fields::Fields;
use crate::lifetimes::lifetimes_of;
use crate::syntax::{forms, opt_form, Form, Kind, Path, Syntax, Type};
use crate::text::{decimal, texts, to_decimal};
use crate::variant::Variant;
use std::collections::HashSet;
use vstd::prelude::*;

verus! {

/// What is declared: the fields of a struct, or the variants of an enum.
#[derive(Debug, PartialEq, Eq)]
pub enum Data {
    Struct(Fields),
    Enum(Vec<Variant>),
}

/// A generic parameter of a declaration.
#[derive(Debug, PartialEq, Eq)]
pub enum GenericParam {
    Lifetime(String),
    Type(String),
    Const(String),
}

/// The generic parameters of a declaration.
#[derive(Debug, PartialEq, Eq)]
pub struct Generics {
    pub params: Vec<GenericParam>,
}

/// Whether, and for which configuration, it is asserted that a type is zero-copy. Without a
/// path it is the default configuration.
#[derive(Debug, PartialEq, Eq)]
pub struct AssertZeroCopyConfig(pub Option<Path>);

/// The arguments of a derive.
#[derive(Debug, PartialEq, Eq)]
pub struct SchemaArgs {
    pub ident: String,
    pub generics: Generics,
    pub data: Data,
    /// Whether the generated code stands in the crate of the traits.
    pub internal: bool,
    /// The type by which the tags of an enum are encoded.
    pub tag_encoding: Option<Type>,
    pub assert_zero_copy: Option<AssertZeroCopyConfig>,
    /// The path to the crate of the traits.
    pub crate_path: Option<Path>,
    /// The type of the context that fields are read with.
    pub context: Option<Type>,
}

/// Why arguments are refused.
#[derive(Debug, PartialEq, Eq)]
pub enum ArgsError {
    /// The tag of the variant at this index is no literal of a value that is read as `u128`, for
    /// the reason that the parser gives.
    InvalidTag { variant: usize, message: String },
    /// The variant at this index has the discriminant of one before it.
    DuplicateDiscriminant { variant: usize, tag: u128 },
    /// This field, of this variant where it is one of an enum, is to be read with a context,
    /// and the declaration names none.
    MissingContext { variant: usize, field: usize },
    /// There is not exactly one item in a list.
    TooManyItems,
    /// An item in a list is no path.
    UnexpectedType,
}

/// What is said of a refusal.
pub open spec fn message_of(error: ArgsError) -> Seq<char> {
    match error {
        ArgsError::InvalidTag { message, .. } => message@,
        ArgsError::DuplicateDiscriminant { tag, .. } => "duplicate enum discriminant "@ + decimal(
            tag as nat,
        ),
        ArgsError::MissingContext {
            ..
        } => "`#[wincode(context)]` requires a top-level `context = \"...\"`"@,
        ArgsError::TooManyItems => "Too many items: Expected no more than 1"@,
        ArgsError::UnexpectedType => "Unexpected type `path`"@,
    }
}

impl ArgsError {
    /// What is said of the refusal.
    pub fn message(&self) -> (text: String)
        ensures
            text@ == message_of(*self),
    {
        match self {
            ArgsError::InvalidTag { message, .. } => message.clone(),
            ArgsError::DuplicateDiscriminant { tag, .. } => {
                let mut text: String = "duplicate enum discriminant ".to_owned();
                text.append(to_decimal(*tag).as_str());
                text
            },
            ArgsError::MissingContext { .. } => {
                "`#[wincode(context)]` requires a top-level `context = \"...\"`".to_owned()
            },
            ArgsError::TooManyItems => "Too many items: Expected no more than 1".to_owned(),
            ArgsError::UnexpectedType => "Unexpected type `path`".to_owned(),
        }
    }
}

/// The value of an integer literal as a `u128`, or what is said of a text that is none or does
/// not fit.
pub uninterp spec fn base10_value(literal: Seq<char>) -> Result<u128, Seq<char>>;

/// `syn::LitInt::base10_parse::<u128>`, on the integer literal that `syn` parses from the text.
///
/// Claimed is only that the outcome is determined by the text: whether it is an integer literal
/// whose value fits, that value, and else the text of the error.
#[verifier::external_body]
fn parse_base10(literal: &str) -> (value: Result<u128, String>)
    ensures
        parsed(value) == base10_value(literal@),
{
    match syn::parse_str::<syn::LitInt>(literal) {
        Ok(lit) => lit.base10_parse::<u128>().map_err(|error| error.to_string()),
        Err(error) => Err(error.to_string()),
    }
}

/// The view of a value that is parsed or not.
pub open spec fn parsed(value: Result<u128, String>) -> Result<u128, Seq<char>> {
    match value {
        Ok(value) => Ok(value),
        Err(message) => Err(message@),
    }
}

/// The views of values that are parsed or not.
pub open spec fn all_parsed(values: Seq<Result<u128, String>>) -> Seq<Result<u128, Seq<char>>> {
    Seq::new(values.len(), |i: int| parsed(values[i]))
}

/// The discriminant of a variant: the value of its tag where it has one, else its index.
pub open spec fn tag_value(variants: Seq<Variant>, i: int) -> Result<u128, Seq<char>> {
    match variants[i].tag {
        Some(tag) => base10_value(tag@),
        None => Ok(i as u128),
    }
}

/// The discriminants of the variants.
pub open spec fn tag_values(variants: Seq<Variant>) -> Seq<Result<u128, Seq<char>>> {
    Seq::new(variants.len(), |i: int| tag_value(variants, i))
}

/// Whether the first `n` discriminants are known and different.
pub open spec fn distinct_before(values: Seq<Result<u128, Seq<char>>>, n: int) -> bool {
    &&& forall|i: int| 0 <= i < n ==> (#[trigger] values[i]) is Ok
    &&& forall|i: int, j: int| 0 <= i < j < n ==> #[trigger] values[i] != #[trigger] values[j]
}

/// Whether `value` is among the first `n` discriminants.
pub open spec fn occurs_before(values: Seq<Result<u128, Seq<char>>>, n: int, value: u128) -> bool {
    exists|i: int| 0 <= i < n && #[trigger] values[i] == Ok::<u128, Seq<char>>(value)
}

/// Whether `result` is what the discriminants are answered with.
pub open spec fn tags_answer(
    values: Seq<Result<u128, Seq<char>>>,
    result: Result<(), ArgsError>,
) -> bool {
    match result {
        Ok(_) => distinct_before(values, values.len() as int),
        Err(ArgsError::InvalidTag { variant, message }) => {
            &&& variant < values.len()
            &&& distinct_before(values, variant as int)
            &&& values[variant as int] == Err::<u128, Seq<char>>(message@)
        },
        Err(ArgsError::DuplicateDiscriminant { variant, tag }) => {
            &&& variant < values.len()
            &&& distinct_before(values, variant as int)
            &&& values[variant as int] == Ok::<u128, Seq<char>>(tag)
            &&& occurs_before(values, variant as int, tag)
        },
        Err(_) => false,
    }
}

/// Ensures that discriminants are known and unique. The first that is not is refused.
pub fn check_tags(values: &Vec<Result<u128, String>>) -> (result: Result<(), ArgsError>)
    ensures
        tags_answer(all_parsed(values@), result),
{
    broadcast use vstd::std_specs::hash::group_hash_axioms;

    let ghost all = all_parsed(values@);
    let mut seen: HashSet<u128> = HashSet::new();
    let mut i: usize = 0;
    while i < values.len()
        invariant
            i <= values.len(),
            all == all_parsed(values@),
            distinct_before(all, i as int),
            forall|value: u128| #[trigger]
                seen@.contains(value) <==> occurs_before(all, i as int, value),
        decreases values.len() - i,
    {
        let ghost before = seen@;
        assert(all[i as int] == parsed(values@[i as int]));
        match &values[i] {
            Err(message) => {
                return Err(ArgsError::InvalidTag { variant: i, message: message.clone() });
            },
            Ok(tag) => {
                let tag: u128 = *tag;
                if !seen.insert(tag) {
                    assert(before.contains(tag));
                    return Err(ArgsError::DuplicateDiscriminant { variant: i, tag });
                }
                assert(!before.contains(tag));
                assert forall|value: u128| #[trigger] seen@.contains(value) implies occurs_before(
                    all,
                    i + 1,
                    value,
                ) by {
                    if before.contains(value) {
                        let k = choose|k: int|
                            0 <= k < i && #[trigger] all[k] == Ok::<u128, Seq<char>>(value);
                        assert(all[k] == Ok::<u128, Seq<char>>(value));
                    } else {
                        assert(all[i as int] == Ok::<u128, Seq<char>>(value));
                    }
                }
                assert forall|value: u128| occurs_before(all, i + 1, value) implies
                    #[trigger] seen@.contains(value) by {
                    let k = choose|k: int|
                        0 <= k < i + 1 && #[trigger] all[k] == Ok::<u128, Seq<char>>(value);
                    if k < i {
                        assert(occurs_before(all, i as int, value));
                        assert(before.contains(value));
                    }
                }
            },
        }
        i += 1;
    }
    Ok(())
}

/// No two variants of an accepted enum have the same discriminant.
pub proof fn accepted_discriminants_are_unique(variants: Seq<Variant>, i: int, j: int)
    requires
        tags_answer(tag_values(variants), Ok(())),
        0 <= i < j < variants.len(),
    ensures
        tag_value(variants, i) is Ok,
        tag_value(variants, j) is Ok,
        tag_value(variants, i) != tag_value(variants, j),
{
    let values = tag_values(variants);
    assert(values[i] == tag_value(variants, i));
    assert(values[j] == tag_value(variants, j));
}

/// An enum without tags is always accepted.
pub proof fn enums_without_tags_are_accepted(variants: Seq<Variant>)
    requires
        forall|i: int| 0 <= i < variants.len() ==> (#[trigger] variants[i]).tag is None,
        variants.len() <= u128::MAX,
    ensures
        tags_answer(tag_values(variants), Ok(())),
{
    let values = tag_values(variants);
    assert forall|i: int| 0 <= i < values.len() implies #[trigger] values[i] == Ok::<u128, Seq<char>>(
        i as u128,
    ) by {
        assert(variants[i].tag is None);
    }
}

impl SchemaArgs {
    /// Ensures that the discriminants of the variants are unique.
    pub fn validate_variant_tags(&self) -> (result: Result<(), ArgsError>)
        ensures
            match self.data {
                Data::Enum(variants) => tags_answer(tag_values(variants@), result),
                Data::Struct(_) => result is Ok,
            },
    {
        match &self.data {
            Data::Enum(variants) => {
                let mut values: Vec<Result<u128, String>> = Vec::new();
                let mut i: usize = 0;
                while i < variants.len()
                    invariant
                        i <= variants.len(),
                        all_parsed(values@) =~= tag_values(variants@).take(i as int),
                    decreases variants.len() - i,
                {
                    let value = match &variants[i].tag {
                        Some(tag) => parse_base10(tag.as_str()),
                        None => Ok(i as u128),
                    };
                    let ghost before = values@;
                    let ghost found = parsed(value);
                    values.push(value);
                    assert(all_parsed(values@) =~= all_parsed(before).push(found));
                    i += 1;
                }
                assert(all_parsed(values@) =~= tag_values(variants@));
                check_tags(&values)
            },
            Data::Struct(_) => Ok(()),
        }
    }
}

/// The path to the crate of the traits: the one given, else `crate` inside that crate and
/// `::wincode` outside it.
pub open spec fn crate_name_of(args: SchemaArgs) -> Form {
    match args.crate_path {
        Some(path) => path@,
        None => if args.internal {
            Form::Tree(Kind::Path { leading_colon: false }, seq![plain_segment("crate"@)])
        } else {
            Form::Tree(Kind::Path { leading_colon: true }, seq![plain_segment("wincode"@)])
        },
    }
}

/// The path to the crate of the traits.
pub fn get_crate_name(args: &SchemaArgs) -> (path: Path)
    ensures
        path@ == crate_name_of(*args),
{
    if let Some(crate_path) = &args.crate_path {
        crate_path.clone()
    } else {
        let mut segments: Vec<Syntax> = Vec::new();
        if args.internal {
            segments.push(new_segment("crate"));
            assert(forms(segments@) =~= seq![plain_segment("crate"@)]);
            Path { leading_colon: false, segments }
        } else {
            segments.push(new_segment("wincode"));
            assert(forms(segments@) =~= seq![plain_segment("wincode"@)]);
            Path { leading_colon: true, segments }
        }
    }
}

/// Whether `new` is `old` with the path to the crate of the traits and, where it is to be read
/// with the context and there is one, with that context and its lifetimes.
pub open spec fn is_populated(
    old_field: Field,
    new_field: Field,
    crate_name: Form,
    context: Option<Form>,
) -> bool {
    &&& new_field.ident == old_field.ident
    &&& new_field.ty == old_field.ty
    &&& new_field.with == old_field.with
    &&& new_field.skip == old_field.skip
    &&& new_field.context_flag == old_field.context_flag
    &&& new_field.crate_name matches Some(path) && path@ == crate_name
    &&& if old_field.context_flag && context is Some {
        &&& opt_form(new_field.context) == context
        &&& texts(new_field.context_lifetimes@) == lifetimes_of(context->Some_0)
    } else {
        &&& new_field.context == old_field.context
        &&& new_field.context_lifetimes == old_field.context_lifetimes
    }
}

/// Whether the first `n` fields are populated and the others as they were.
pub open spec fn populated_before(
    old_fields: Seq<Field>,
    new_fields: Seq<Field>,
    n: int,
    crate_name: Form,
    context: Option<Form>,
) -> bool {
    &&& new_fields.len() == old_fields.len()
    &&& forall|i: int|
        0 <= i < n ==> is_populated(
            old_fields[i],
            #[trigger] new_fields[i],
            crate_name,
            context,
        )
    &&& forall|i: int| n <= i < new_fields.len() ==> #[trigger] new_fields[i] == old_fields[i]
}

/// Whether none of the first `n` fields lacks a context.
pub open spec fn served_before(fields: Seq<Field>, n: int, context: Option<Form>) -> bool {
    context is Some || forall|i: int| 0 <= i < n ==> !(#[trigger] fields[i]).context_flag
}

/// Whether `new` is `old` with other fields.
pub open spec fn is_same_variant(old_variant: Variant, new_variant: Variant) -> bool {
    &&& new_variant.ident == old_variant.ident
    &&& new_variant.tag == old_variant.tag
    &&& new_variant.fields.style == old_variant.fields.style
}

/// Whether the fields of the first `n` variants are populated and the other variants as they
/// were.
pub open spec fn variants_populated_before(
    old_variants: Seq<Variant>,
    new_variants: Seq<Variant>,
    n: int,
    crate_name: Form,
    context: Option<Form>,
) -> bool {
    &&& new_variants.len() == old_variants.len()
    &&& forall|i: int|
        0 <= i < n ==> is_variant_populated(
            old_variants[i],
            #[trigger] new_variants[i],
            crate_name,
            context,
        )
    &&& forall|i: int|
        n <= i < new_variants.len() ==> #[trigger] new_variants[i] == old_variants[i]
}

/// Whether `new` is `old` with all of its fields populated.
pub open spec fn is_variant_populated(
    old_variant: Variant,
    new_variant: Variant,
    crate_name: Form,
    context: Option<Form>,
) -> bool {
    &&& is_same_variant(old_variant, new_variant)
    &&& populated_before(
        old_variant.fields.fields@,
        new_variant.fields.fields@,
        old_variant.fields.fields@.len() as int,
        crate_name,
        context,
    )
}

/// Whether none of the fields of the first `n` variants lacks a context.
pub open spec fn variants_served_before(
    variants: Seq<Variant>,
    n: int,
    context: Option<Form>,
) -> bool {
    forall|i: int|
        0 <= i < n ==> served_before(
            (#[trigger] variants[i]).fields.fields@,
            variants[i].fields.fields@.len() as int,
            context,
        )
}

/// Whether the fields of `new` are those of `old` as far as they come to be populated, and
/// `result` says how far that is.
pub open spec fn data_populated(
    old_data: Data,
    new_data: Data,
    crate_name: Form,
    context: Option<Form>,
    result: Result<(), ArgsError>,
) -> bool {
    match (old_data, new_data) {
        (Data::Struct(old_fields), Data::Struct(new_fields)) => {
            let before = old_fields.fields@;
            let after = new_fields.fields@;
            &&& new_fields.style == old_fields.style
            &&& match result {
                Ok(_) => {
                    &&& served_before(before, before.len() as int, context)
                    &&& populated_before(before, after, before.len() as int, crate_name, context)
                },
                Err(ArgsError::MissingContext { variant, field }) => {
                    &&& variant == 0
                    &&& field < before.len()
                    &&& context is None
                    &&& served_before(before, field as int, context)
                    &&& before[field as int].context_flag
                    &&& populated_before(before, after, field + 1, crate_name, context)
                },
                Err(_) => false,
            }
        },
        (Data::Enum(old_variants), Data::Enum(new_variants)) => {
            let before = old_variants@;
            let after = new_variants@;
            match result {
                Ok(_) => {
                    &&& variants_served_before(before, before.len() as int, context)
                    &&& variants_populated_before(
                        before,
                        after,
                        before.len() as int,
                        crate_name,
                        context,
                    )
                },
                Err(ArgsError::MissingContext { variant, field }) => {
                    let at = variant as int;
                    &&& variant < before.len()
                    &&& after.len() == before.len()
                    &&& context is None
                    &&& variants_served_before(before, at, context)
                    &&& field < before[at].fields.fields@.len()
                    &&& served_before(before[at].fields.fields@, field as int, context)
                    &&& before[at].fields.fields@[field as int].context_flag
                    &&& is_same_variant(before[at], after[at])
                    &&& populated_before(
                        before[at].fields.fields@,
                        after[at].fields.fields@,
                        field + 1,
                        crate_name,
                        context,
                    )
                    &&& forall|i: int|
                        0 <= i < at ==> is_variant_populated(
                            before[i],
                            #[trigger] after[i],
                            crate_name,
                            context,
                        )
                    &&& forall|i: int| at < i < after.len() ==> #[trigger] after[i] == before[i]
                },
                Err(_) => false,
            }
        },
        _ => false,
    }
}

/// Copies texts.
fn copy_texts(strings: &Vec<String>) -> (copies: Vec<String>)
    ensures
        texts(copies@) == texts(strings@),
{
    let mut copies: Vec<String> = Vec::new();
    let mut i: usize = 0;
    while i < strings.len()
        invariant
            i <= strings.len(),
            texts(copies@) =~= texts(strings@).take(i as int),
        decreases strings.len() - i,
    {
        let ghost before = copies@;
        copies.push(strings[i].clone());
        assert(texts(copies@) =~= texts(before).push(strings@[i as int]@));
        i += 1;
    }
    assert(texts(copies@) =~= texts(strings@));
    copies
}

/// Populates one field; whether it is to be read with a context that there is not.
fn resolve(
    field: &mut Field,
    context: &Option<Type>,
    context_lifetimes: &Vec<String>,
    crate_name: &Path,
) -> (lacking: bool)
    requires
        context matches Some(ty) ==> texts(context_lifetimes@) == lifetimes_of(ty@),
    ensures
        lacking == (old(field).context_flag && context is None),
        is_populated(*old(field), *final(field), crate_name@, opt_form(*context)),
{
    field.crate_name = Some(crate_name.clone());
    if !field.context_flag {
        return false;
    }
    match context {
        None => true,
        Some(ty) => {
            field.context = Some(ty.clone());
            field.context_lifetimes = copy_texts(context_lifetimes);
            false
        },
    }
}

/// Populates fields in order, up to the first that lacks a context.
fn resolve_all(
    fields: &mut Vec<Field>,
    context: &Option<Type>,
    context_lifetimes: &Vec<String>,
    crate_name: &Path,
) -> (lacking: Option<usize>)
    requires
        context matches Some(ty) ==> texts(context_lifetimes@) == lifetimes_of(ty@),
    ensures
        match lacking {
            None => {
                &&& served_before(old(fields)@, old(fields)@.len() as int, opt_form(*context))
                &&& populated_before(
                    old(fields)@,
                    final(fields)@,
                    old(fields)@.len() as int,
                    crate_name@,
                    opt_form(*context),
                )
            },
            Some(i) => {
                &&& i < old(fields)@.len()
                &&& context is None
                &&& served_before(old(fields)@, i as int, opt_form(*context))
                &&& old(fields)@[i as int].context_flag
                &&& populated_before(
                    old(fields)@,
                    final(fields)@,
                    i + 1,
                    crate_name@,
                    opt_form(*context),
                )
            },
        },
{
    let mut i: usize = 0;
    while i < fields.len()
        invariant
            i <= fields.len(),
            context matches Some(ty) ==> texts(context_lifetimes@) == lifetimes_of(ty@),
            served_before(old(fields)@, i as int, opt_form(*context)),
            populated_before(
                old(fields)@,
                fields@,
                i as int,
                crate_name@,
                opt_form(*context),
            ),
        decreases fields.len() - i,
    {
        let ghost before = fields@;
        assert(before[i as int] == old(fields)@[i as int]);
        let lacking = resolve(&mut fields[i], context, context_lifetimes, crate_name);
        assert(forall|k: int| 0 <= k < fields@.len() && k != i ==> fields@[k] == before[k]);
        if lacking {
            return Some(i);
        }
        i += 1;
    }
    None
}

impl SchemaArgs {
    /// Populates the fields with what is known of the whole declaration: the path to the crate
    /// of the traits and, for fields that are to be read with it, the context.
    ///
    /// A field that is to be read with a context is refused where the declaration names none.
    pub fn populate_field_metadata(&mut self) -> (result: Result<(), ArgsError>)
        ensures
            final(self).ident == old(self).ident,
            final(self).generics == old(self).generics,
            final(self).internal == old(self).internal,
            final(self).tag_encoding == old(self).tag_encoding,
            final(self).assert_zero_copy == old(self).assert_zero_copy,
            final(self).crate_path == old(self).crate_path,
            final(self).context == old(self).context,
            data_populated(
                old(self).data,
                final(self).data,
                crate_name_of(*old(self)),
                opt_form(old(self).context),
                result,
            ),
    {
        let crate_name = get_crate_name(self);
        let context_lifetimes: Vec<String> = match &self.context {
            Some(ty) => ty.lifetimes(),
            None => Vec::new(),
        };
        match &mut self.data {
            Data::Struct(fields) => {
                match resolve_all(
                    &mut fields.fields,
                    &self.context,
                    &context_lifetimes,
                    &crate_name,
                ) {
                    Some(field) => Err(ArgsError::MissingContext { variant: 0, field }),
                    None => Ok(()),
                }
            },
            Data::Enum(variants) => resolve_variants(
                variants,
                &self.context,
                &context_lifetimes,
                &crate_name,
            ),
        }
    }
}

/// Populates the fields of variants in order, up to the first that lacks a context.
fn resolve_variants(
    variants: &mut Vec<Variant>,
    context: &Option<Type>,
    context_lifetimes: &Vec<String>,
    crate_name: &Path,
) -> (result: Result<(), ArgsError>)
    requires
        context matches Some(ty) ==> texts(context_lifetimes@) == lifetimes_of(ty@),
    ensures
        data_populated(
            Data::Enum(*old(variants)),
            Data::Enum(*final(variants)),
            crate_name@,
            opt_form(*context),
            result,
        ),
{
    let mut i: usize = 0;
    while i < variants.len()
        invariant
            i <= variants.len(),
            context matches Some(ty) ==> texts(context_lifetimes@) == lifetimes_of(ty@),
            variants_served_before(old(variants)@, i as int, opt_form(*context)),
            variants_populated_before(
                old(variants)@,
                variants@,
                i as int,
                crate_name@,
                opt_form(*context),
            ),
        decreases variants.len() - i,
    {
        let ghost before = variants@;
        assert(before[i as int] == old(variants)@[i as int]);
        let lacking = resolve_all(
            &mut variants[i].fields.fields,
            context,
            context_lifetimes,
            crate_name,
        );
        assert(forall|k: int| 0 <= k < variants@.len() && k != i ==> variants@[k] == before[k]);
        if let Some(field) = lacking {
            return Err(ArgsError::MissingContext { variant: i, field });
        }
        i += 1;
    }
    Ok(())
}

/// Whether the field at `field`, of the variant at `variant` where it is one of an enum, is the
/// first that is to be read with a context that there is not.
pub open spec fn lacks_context(
    data: Data,
    context: Option<Form>,
    variant: usize,
    field: usize,
) -> bool {
    &&& context is None
    &&& match data {
        Data::Struct(fields) => {
            &&& variant == 0
            &&& field < fields.fields@.len()
            &&& served_before(fields.fields@, field as int, context)
            &&& fields.fields@[field as int].context_flag
        },
        Data::Enum(variants) => {
            &&& variant < variants@.len()
            &&& variants_served_before(variants@, variant as int, context)
            &&& field < variants@[variant as int].fields.fields@.len()
            &&& served_before(variants@[variant as int].fields.fields@, field as int, context)
            &&& variants@[variant as int].fields.fields@[field as int].context_flag
        },
    }
}

/// Whether the discriminants are accepted.
pub open spec fn tags_accepted(data: Data) -> bool {
    data matches Data::Enum(variants) ==> tags_answer(tag_values(variants@), Ok(()))
}

impl SchemaArgs {
    /// The arguments with their fields populated, if the discriminants are unique and no field
    /// lacks a context.
    pub fn validate(self) -> (result: Result<SchemaArgs, ArgsError>)
        ensures
            match result {
                Ok(args) => {
                    &&& tags_accepted(self.data)
                    &&& args.ident == self.ident
                    &&& args.generics == self.generics
                    &&& args.internal == self.internal
                    &&& args.tag_encoding == self.tag_encoding
                    &&& args.assert_zero_copy == self.assert_zero_copy
                    &&& args.crate_path == self.crate_path
                    &&& args.context == self.context
                    &&& data_populated(
                        self.data,
                        args.data,
                        crate_name_of(self),
                        opt_form(self.context),
                        Ok(()),
                    )
                },
                Err(ArgsError::MissingContext { variant, field }) => {
                    &&& tags_accepted(self.data)
                    &&& lacks_context(self.data, opt_form(self.context), variant, field)
                },
                Err(error) => self.data matches Data::Enum(variants) && tags_answer(
                    tag_values(variants@),
                    Err(error),
                ),
            },
    {
        let mut args = self;
        match args.validate_variant_tags() {
            Ok(_) => (),
            Err(error) => {
                return Err(error);
            },
        }
        match args.populate_field_metadata() {
            Ok(_) => Ok(args),
            Err(error) => Err(error),
        }
    }
}

/// Where no field asks for a context, or the declaration names one, no field lacks it.
pub proof fn contexts_are_lacking_only_where_asked_for(
    data: Data,
    context: Option<Form>,
    variant: usize,
    field: usize,
)
    requires
        match data {
            Data::Struct(fields) => served_before(
                fields.fields@,
                fields.fields@.len() as int,
                context,
            ),
            Data::Enum(variants) => variants_served_before(
                variants@,
                variants@.len() as int,
                context,
            ),
        },
    ensures
        !lacks_context(data, context, variant, field),
{
    if let Data::Enum(variants) = data {
        if variant < variants@.len() {
            assert(served_before(
                variants@[variant as int].fields.fields@,
                variants@[variant as int].fields.fields@.len() as int,
                context,
            ));
        }
    }
}

/// The fields of a declaration, over all of its variants where it is an enum.
pub open spec fn all_fields(data: Data) -> Seq<Field> {
    match data {
        Data::Struct(fields) => fields.fields@,
        Data::Enum(variants) => fields_of_variants(variants@),
    }
}

/// The fields of variants, one behind the other.
pub open spec fn fields_of_variants(variants: Seq<Variant>) -> Seq<Field>
    decreases variants.len(),
{
    if variants.len() == 0 {
        seq![]
    } else {
        fields_of_variants(variants.drop_last()) + variants.last().fields.fields@
    }
}

/// The fields of accepted arguments know the crate of the traits, and those that are to be
/// read with the context know that context and its lifetimes.
pub proof fn accepted_fields_are_populated(
    before: Data,
    after: Data,
    crate_name: Form,
    context: Option<Form>,
    i: int,
)
    requires
        data_populated(before, after, crate_name, context, Ok(())),
        0 <= i < all_fields(after).len(),
    ensures
        all_fields(after).len() == all_fields(before).len(),
        all_fields(after)[i].crate_name matches Some(path) && path@ == crate_name,
        all_fields(after)[i].context_flag ==> {
            &&& context is Some
            &&& opt_form(all_fields(after)[i].context) == context
            &&& texts(all_fields(after)[i].context_lifetimes@) == lifetimes_of(context->Some_0)
        },
{
    match (before, after) {
        (Data::Struct(old_fields), Data::Struct(new_fields)) => {
            assert(is_populated(
                old_fields.fields@[i],
                new_fields.fields@[i],
                crate_name,
                context,
            ));
        },
        (Data::Enum(old_variants), Data::Enum(new_variants)) => {
            lemma_variants_populated(old_variants@, new_variants@, crate_name, context, i);
        },
        _ => {},
    }
}

proof fn lemma_variants_populated(
    before: Seq<Variant>,
    after: Seq<Variant>,
    crate_name: Form,
    context: Option<Form>,
    i: int,
)
    requires
        variants_populated_before(before, after, before.len() as int, crate_name, context),
        variants_served_before(before, before.len() as int, context),
        0 <= i < fields_of_variants(after).len(),
    ensures
        fields_of_variants(after).len() == fields_of_variants(before).len(),
        is_populated(
            fields_of_variants(before)[i],
            fields_of_variants(after)[i],
            crate_name,
            context,
        ),
        context is Some || !fields_of_variants(before)[i].context_flag,
    decreases before.len(),
{
    if before.len() > 0 {
        let last = before.len() - 1;
        assert(is_variant_populated(before[last], after[last], crate_name, context));
        assert(served_before(
            before[last].fields.fields@,
            before[last].fields.fields@.len() as int,
            context,
        ));
        let old_init = before.drop_last();
        let new_init = after.drop_last();
        assert forall|k: int| 0 <= k < old_init.len() implies is_variant_populated(
            old_init[k],
            #[trigger] new_init[k],
            crate_name,
            context,
        ) by {
            assert(is_variant_populated(before[k], after[k], crate_name, context));
        }
        assert forall|k: int| 0 <= k < old_init.len() implies served_before(
            (#[trigger] old_init[k]).fields.fields@,
            old_init[k].fields.fields@.len() as int,
            context,
        ) by {
            assert(before[k] == old_init[k]);
        }
        lemma_as_many_fields(old_init, new_init, crate_name, context);
        if i < fields_of_variants(new_init).len() {
            lemma_variants_populated(old_init, new_init, crate_name, context, i);
        } else {
            let k = i - fields_of_variants(new_init).len();
            assert(is_populated(
                before[last].fields.fields@[k],
                after[last].fields.fields@[k],
                crate_name,
                context,
            ));
        }
    }
}

proof fn lemma_as_many_fields(
    before: Seq<Variant>,
    after: Seq<Variant>,
    crate_name: Form,
    context: Option<Form>,
)
    requires
        variants_populated_before(before, after, before.len() as int, crate_name, context),
    ensures
        fields_of_variants(after).len() == fields_of_variants(before).len(),
    decreases before.len(),
{
    if before.len() > 0 {
        let last = before.len() - 1;
        assert(is_variant_populated(before[last], after[last], crate_name, context));
        let old_init = before.drop_last();
        let new_init = after.drop_last();
        assert forall|k: int| 0 <= k < old_init.len() implies is_variant_populated(
            old_init[k],
            #[trigger] new_init[k],
            crate_name,
            context,
        ) by {
            assert(is_variant_populated(before[k], after[k], crate_name, context));
        }
        lemma_as_many_fields(old_init, new_init, crate_name, context);
    }
}

/// An item in the list of an attribute.
#[derive(Debug, PartialEq, Eq)]
pub enum NestedMeta {
    /// A path.
    Path(Path),
    /// A literal, or a path with a value or a list.
    Other,
}

impl AssertZeroCopyConfig {
    /// The word alone stands for the default configuration.
    pub fn from_word() -> (result: Result<AssertZeroCopyConfig, ArgsError>)
        ensures
            result == Ok::<AssertZeroCopyConfig, ArgsError>(AssertZeroCopyConfig(None)),
    {
        Ok(AssertZeroCopyConfig(None))
    }

    /// A list of one path names the configuration.
    pub fn from_list(items: &Vec<NestedMeta>) -> (result: Result<AssertZeroCopyConfig, ArgsError>)
        ensures
            match result {
                Ok(AssertZeroCopyConfig(config)) => {
                    &&& items@.len() == 1
                    &&& items@[0] matches NestedMeta::Path(path) && config is Some
                        && config->Some_0@ == path@
                },
                Err(ArgsError::TooManyItems) => items@.len() != 1,
                Err(ArgsError::UnexpectedType) => items@.len() == 1 && items@[0] is Other,
                Err(_) => false,
            },
    {
        if items.len() != 1 {
            return Err(ArgsError::TooManyItems);
        }
        match &items[0] {
            NestedMeta::Path(path) => Ok(AssertZeroCopyConfig(Some(path.clone()))),
            NestedMeta::Other => Err(ArgsError::UnexpectedType),
        }
    }
}

/// The type that encodes tags where the arguments name none: `__WincodeConfig::TagEncoding`.
pub open spec fn tag_encoding_form() -> Form {
    Form::Tree(
        Kind::PathType,
        seq![
            Form::Tree(
                Kind::Path { leading_colon: false },
                seq![plain_segment("__WincodeConfig"@), plain_segment("TagEncoding"@)],
            ),
        ],
    )
}

/// The type that encodes tags where the arguments name none.
pub fn default_tag_encoding() -> (ty: Type)
    ensures
        ty@ == tag_encoding_form(),
{
    let mut segments: Vec<Syntax> = Vec::new();
    segments.push(new_segment("__WincodeConfig"));
    segments.push(new_segment("TagEncoding"));
    assert(forms(segments@) =~= seq![
        plain_segment("__WincodeConfig"@),
        plain_segment("TagEncoding"@),
    ]);
    new_wrapper(
        Kind::PathType,
        Syntax::Tree(Kind::Path { leading_colon: false }, segments),
    )
}

/// Discriminants are accepted exactly if each of them is known and no two are equal.
pub proof fn known_and_different_discriminants_are_accepted(values: Seq<Result<u128, Seq<char>>>)
    ensures
        tags_answer(values, Ok(())) <==> {
            &&& forall|i: int| 0 <= i < values.len() ==> (#[trigger] values[i]) is Ok
            &&& forall|i: int, j: int|
                0 <= i < j < values.len() ==> #[trigger] values[i] != #[trigger] values[j]
        },
{
}

/// The variant that is refused is the first that gives a reason: its discriminant is not known,
/// with that message, or it is that of a variant before it; all before it are known and
/// different.
pub proof fn the_first_bad_discriminant_is_refused(
    values: Seq<Result<u128, Seq<char>>>,
    error: ArgsError,
)
    requires
        tags_answer(values, Err(error)),
    ensures
        error is InvalidTag || error is DuplicateDiscriminant,
        error matches ArgsError::InvalidTag { variant, message } ==> {
            &&& variant < values.len()
            &&& values[variant as int] == Err::<u128, Seq<char>>(message@)
            &&& tags_answer(values.take(variant as int), Ok(()))
        },
        error matches ArgsError::DuplicateDiscriminant { variant, tag } ==> {
            &&& variant < values.len()
            &&& values[variant as int] == Ok::<u128, Seq<char>>(tag)
            &&& values.take(variant as int).contains(Ok(tag))
            &&& tags_answer(values.take(variant as int), Ok(()))
        },
{
    match error {
        ArgsError::InvalidTag { variant, .. } => {
            lemma_accepted_before(values, variant as int);
        },
        ArgsError::DuplicateDiscriminant { variant, tag } => {
            lemma_accepted_before(values, variant as int);
            let i = choose|i: int|
                0 <= i < variant && #[trigger] values[i] == Ok::<u128, Seq<char>>(tag);
            assert(values.take(variant as int)[i] == Ok::<u128, Seq<char>>(tag));
        },
        _ => {},
    }
}

proof fn lemma_accepted_before(values: Seq<Result<u128, Seq<char>>>, n: int)
    requires
        0 <= n <= values.len(),
        distinct_before(values, n),
    ensures
        tags_answer(values.take(n), Ok(())),
{
    let part = values.take(n);
    assert forall|i: int| 0 <= i < n implies (#[trigger] part[i]) is Ok by {
        assert(values[i] is Ok);
    }
    assert forall|i: int, j: int| 0 <= i < j < n implies #[trigger] part[i] != #[trigger] part[j] by {
        assert(values[i] != values[j]);
    }
}

/// Two answers to the same discriminants accept or refuse alike, and refuse the same variant.
pub proof fn discriminants_have_one_answer(
    values: Seq<Result<u128, Seq<char>>>,
    result: Result<(), ArgsError>,
    other: Result<(), ArgsError>,
)
    requires
        tags_answer(values, result),
        tags_answer(values, other),
    ensures
        match (result, other) {
            (Ok(_), Ok(_)) => true,
            (
                Err(ArgsError::InvalidTag { variant: v, message: m }),
                Err(ArgsError::InvalidTag { variant: w, message: n }),
            ) => v == w && m@ == n@,
            (
                Err(ArgsError::DuplicateDiscriminant { variant: v, tag: t }),
                Err(ArgsError::DuplicateDiscriminant { variant: w, tag: u }),
            ) => v == w && t == u,
            _ => false,
        },
{
    lemma_refused_at(values, result);
    lemma_refused_at(values, other);
}

/// The variant that an answer refuses, or the number of variants where it refuses none.
spec fn refused_at(values: Seq<Result<u128, Seq<char>>>, result: Result<(), ArgsError>) -> int {
    match result {
        Err(ArgsError::InvalidTag { variant, .. }) => variant as int,
        Err(ArgsError::DuplicateDiscriminant { variant, .. }) => variant as int,
        _ => values.len() as int,
    }
}

/// Up to the refused variant, and no further, the discriminants are known and different.
proof fn lemma_refused_at(values: Seq<Result<u128, Seq<char>>>, result: Result<(), ArgsError>)
    requires
        tags_answer(values, result),
    ensures
        0 <= refused_at(values, result) <= values.len(),
        result is Err ==> refused_at(values, result) < values.len(),
        distinct_before(values, refused_at(values, result)),
        forall|n: int|
            refused_at(values, result) < n <= values.len() ==> !#[trigger] distinct_before(
                values,
                n,
            ),
{
    let at = refused_at(values, result);
    assert forall|n: int| at < n <= values.len() implies !#[trigger] distinct_before(values, n) by {
        if let Err(ArgsError::DuplicateDiscriminant { variant, tag }) = result {
            let i = choose|i: int| 0 <= i < at && #[trigger] values[i] == Ok::<u128, Seq<char>>(tag);
            assert(values[i] == values[at]);
        } else {
            assert(values[at] is Err);
        }
    }
}

/// The discriminant of a variant is its index, unless it is tagged: it is what its tag is read
/// as.
pub proof fn discriminants_are_tags_or_indexes(variants: Seq<Variant>, i: int)
    requires
        0 <= i < variants.len() <= u128::MAX,
    ensures
        tag_values(variants).len() == variants.len(),
        variants[i].tag is None ==> (tag_values(variants)[i] matches Ok(value) && value == i),
        variants[i].tag matches Some(tag) ==> tag_values(variants)[i] == base10_value(tag@),
{
}

/// The crate of the traits is found by the path that is given; without one it is `crate` inside
/// that crate and `::wincode` outside it.
pub proof fn crates_are_found_by_their_path(args: SchemaArgs)
    ensures
        args.crate_path matches Some(path) ==> crate_name_of(args) == path@,
        args.crate_path is None && args.internal ==> crate_name_of(args) == Form::Tree(
            Kind::Path { leading_colon: false },
            seq![Form::Tree(Kind::Segment, seq![Form::Ident("crate"@)])],
        ),
        args.crate_path is None && !args.internal ==> crate_name_of(args) == Form::Tree(
            Kind::Path { leading_colon: true },
            seq![Form::Tree(Kind::Segment, seq![Form::Ident("wincode"@)])],
        ),
{
}

/// What is known of the whole declaration is all that fields are given: their names, types,
/// attributes and order stay, and so do the contexts of those that do not ask for one.
pub proof fn population_changes_nothing_else(
    before: Data,
    after: Data,
    crate_name: Form,
    context: Option<Form>,
    i: int,
)
    requires
        data_populated(before, after, crate_name, context, Ok(())),
        0 <= i < all_fields(after).len(),
    ensures
        all_fields(after).len() == all_fields(before).len(),
        ({
            let old_field = all_fields(before)[i];
            let new_field = all_fields(after)[i];
            &&& new_field.ident == old_field.ident
            &&& new_field.ty == old_field.ty
            &&& new_field.with == old_field.with
            &&& new_field.skip == old_field.skip
            &&& new_field.context_flag == old_field.context_flag
            &&& !old_field.context_flag ==> new_field.context == old_field.context
                && new_field.context_lifetimes == old_field.context_lifetimes
        }),
        match (before, after) {
            (Data::Struct(old_fields), Data::Struct(new_fields)) => new_fields.style
                == old_fields.style,
            (Data::Enum(old_variants), Data::Enum(new_variants)) => {
                &&& new_variants@.len() == old_variants@.len()
                &&& forall|v: int|
                    0 <= v < new_variants@.len() ==> (#[trigger] new_variants@[v]).ident
                        == old_variants@[v].ident && new_variants@[v].tag == old_variants@[v].tag
                        && new_variants@[v].fields.style == old_variants@[v].fields.style
                        && new_variants@[v].fields.fields@.len()
                        == old_variants@[v].fields.fields@.len()
            },
            _ => false,
        },
{
    match (before, after) {
        (Data::Struct(old_fields), Data::Struct(new_fields)) => {
            assert(is_populated(
                old_fields.fields@[i],
                new_fields.fields@[i],
                crate_name,
                context,
            ));
        },
        (Data::Enum(old_variants), Data::Enum(new_variants)) => {
            lemma_variants_populated(old_variants@, new_variants@, crate_name, context, i);
            assert forall|v: int| 0 <= v < new_variants@.len() implies (
            #[trigger] new_variants@[v]).ident == old_variants@[v].ident && new_variants@[v].tag
                == old_variants@[v].tag && new_variants@[v].fields.style
                == old_variants@[v].fields.style && new_variants@[v].fields.fields@.len()
                == old_variants@[v].fields.fields@.len() by {
                assert(is_variant_populated(
                    old_variants@[v],
                    new_variants@[v],
                    crate_name,
                    context,
                ));
            }
        },
        _ => {},
    }
}

/// The fields of variants are those of each of them, one behind the other.
pub proof fn fields_are_those_of_all_variants(
    first: Seq<Variant>,
    second: Seq<Variant>,
    variant: Variant,
)
    ensures
        fields_of_variants(first + second) == fields_of_variants(first) + fields_of_variants(
            second,
        ),
        fields_of_variants(seq![variant]) == variant.fields.fields@,
        fields_of_variants(seq![]) == Seq::<Field>::empty(),
    decreases second.len(),
{
    assert(seq![variant].drop_last() =~= seq![]);
    reveal_with_fuel(fields_of_variants, 2);
    assert(fields_of_variants(seq![]) =~= seq![]);
    assert(fields_of_variants(seq![variant]) =~= variant.fields.fields@);
    if second.len() == 0 {
        assert(first + second =~= first);
        assert(fields_of_variants(first) + fields_of_variants(second) =~= fields_of_variants(
            first,
        ));
    } else {
        fields_are_those_of_all_variants(first, second.drop_last(), variant);
        assert((first + second).drop_last() =~= first + second.drop_last());
        assert((first + second).last() == second.last());
        assert(fields_of_variants(first + second) =~= fields_of_variants(first)
            + fields_of_variants(second));
    }
}

/// A context is lacking where the declaration names none and a field asks for it, and no field
/// before that one, in its variant or in one before it, does.
pub proof fn the_first_field_that_asks_is_the_one_that_lacks(
    data: Data,
    context: Option<Form>,
    variant: usize,
    field: usize,
)
    ensures
        lacks_context(data, context, variant, field) <==> context is None && match data {
            Data::Struct(fields) => {
                &&& variant == 0
                &&& field < fields.fields@.len()
                &&& fields.fields@[field as int].context_flag
                &&& forall|i: int|
                    0 <= i < field ==> !(#[trigger] fields.fields@[i]).context_flag
            },
            Data::Enum(variants) => {
                &&& variant < variants@.len()
                &&& field < variants@[variant as int].fields.fields@.len()
                &&& variants@[variant as int].fields.fields@[field as int].context_flag
                &&& forall|i: int|
                    0 <= i < field ==> !(#[trigger] variants@[variant as int].fields.fields@[i]).context_flag
                &&& forall|v: int, i: int|
                    0 <= v < variant && 0 <= i < variants@[v].fields.fields@.len() ==> !(
                    #[trigger] variants@[v].fields.fields@[i]).context_flag
            },
        },
{
    if let Data::Enum(variants) = data {
        if context is None && variant < variants@.len() {
            if variants_served_before(variants@, variant as int, context) {
                assert forall|v: int, i: int|
                    0 <= v < variant && 0 <= i < variants@[v].fields.fields@.len() implies !(
                #[trigger] variants@[v].fields.fields@[i]).context_flag by {
                    assert(served_before(
                        variants@[v].fields.fields@,
                        variants@[v].fields.fields@.len() as int,
                        context,
                    ));
                }
            }
        }
    }
}

/// Refusals say what is wrong: what the parser says of a tag, which discriminant is there twice,
/// and what is missing or not expected.
pub proof fn refusals_say_what_is_wrong(error: ArgsError)
    ensures
        error matches ArgsError::InvalidTag { message, .. } ==> message_of(error) == message@,
        error matches ArgsError::DuplicateDiscriminant { tag, .. } ==> message_of(error)
            == "duplicate enum discriminant "@ + decimal(tag as nat),
        error is MissingContext ==> message_of(error)
            == "`#[wincode(context)]` requires a top-level `context = \"...\"`"@,
        error is TooManyItems ==> message_of(error) == "Too many items: Expected no more than 1"@,
        error is UnexpectedType ==> message_of(error) == "Unexpected type `path`"@,
{
}

/// Where the arguments name no type, tags are encoded by `__WincodeConfig::TagEncoding`.
pub proof fn tags_are_encoded_by_the_configuration()
    ensures
        tag_encoding_form() == Form::Tree(
            Kind::PathType,
            seq![
                Form::Tree(
                    Kind::Path { leading_colon: false },
                    seq![
                        Form::Tree(Kind::Segment, seq![Form::Ident("__WincodeConfig"@)]),
                        Form::Tree(Kind::Segment, seq![Form::Ident("TagEncoding"@)]),
                    ],
                ),
            ],
        ),
{
}

/// The fields of a struct are its fields.
pub proof fn fields_of_a_struct_are_its_fields(fields: Fields, variants: Vec<Variant>)
    ensures
        all_fields(Data::Struct(fields)) == fields.fields@,
        all_fields(Data::Enum(variants)) == fields_of_variants(variants@),
        tags_accepted(Data::Struct(fields)),
        tags_accepted(Data::Enum(variants)) <==> tags_answer(tag_values(variants@), Ok(())),
{
}

/// Population fails only for want of a context, at the first field that lacks it. The fields
/// before it know the crate of the traits by then, and those behind it are as they were.
pub proof fn population_stops_where_a_context_is_lacking(
    before: Data,
    after: Data,
    crate_name: Form,
    context: Option<Form>,
    error: ArgsError,
    i: int,
)
    requires
        data_populated(before, after, crate_name, context, Err(error)),
    ensures
        error matches ArgsError::MissingContext { variant, field } && lacks_context(
            before,
            context,
            variant,
            field,
        ) && match (before, after) {
            (Data::Struct(old_fields), Data::Struct(new_fields)) => {
                &&& new_fields.fields@.len() == old_fields.fields@.len()
                &&& 0 <= i <= field ==> (new_fields.fields@[i].crate_name matches Some(path)
                    && path@ == crate_name)
                &&& field < i < old_fields.fields@.len() ==> new_fields.fields@[i]
                    == old_fields.fields@[i]
            },
            (Data::Enum(old_variants), Data::Enum(new_variants)) => {
                &&& new_variants@.len() == old_variants@.len()
                &&& variant < i < old_variants@.len() ==> new_variants@[i] == old_variants@[i]
            },
            _ => false,
        },
{
    if let (Data::Struct(old_fields), Data::Struct(new_fields)) = (before, after) {
        if let ArgsError::MissingContext { variant, field } = error {
            if 0 <= i <= field {
                assert(is_populated(
                    old_fields.fields@[i],
                    new_fields.fields@[i],
                    crate_name,
                    context,
                ));
            }
        }
    }
}

/// The views of values that are parsed or not are those of each of them, in order.
pub proof fn views_are_those_of_the_parsed_values(values: Seq<Result<u128, String>>, i: int)
    requires
        0 <= i < values.len(),
    ensures
        all_parsed(values).len() == values.len(),
        values[i] matches Ok(value) ==> all_parsed(values)[i] == Ok::<u128, Seq<char>>(value),
        values[i] matches Err(message) ==> all_parsed(values)[i] == Err::<u128, Seq<char>>(
            message@,
        ),
{
}

} // verus!
