//! The variants of an enum.

use crate::field::{new_qualifier, qualifier_form, Qualified, TraitImpl};
use crate::fields::{all_ready, qualified_all, qualified_views, unskipped, Fields, Style};
use crate::meta::{
    all_static, choose_variant, chosen, is_zero_copy, joined, same_size, size_of_meta,
    sizes_add_up, total_size, variants_are_chosen_if_they_agree, with_zero_copy, TypeMeta,
};
use crate::names::{anon_ident_iter, anon_name};
use crate::syntax::{Path, Type};
use crate::text::{decimal, decimal_texts_stand_for_their_number, number, to_decimal};
use vstd::prelude::*;

verus! {

/// A variant of an enum.
#[derive(Debug, PartialEq, Eq)]
pub struct Variant {
    pub ident: String,
    pub fields: Fields,
    /// The text of the integer literal that the variant is tagged with.
    pub tag: Option<String>,
}

impl Variant {
    /// The text of the literal that stands for the variant.
    pub open spec fn discriminant_text(self, index: nat) -> Seq<char> {
        match self.tag {
            Some(tag) => tag@,
            None => decimal(index),
        }
    }

    /// The literal that stands for the variant: its tag where it has one, else its index.
    pub fn discriminant(&self, field_index: usize) -> (literal: String)
        ensures
            literal@ == self.discriminant_text(field_index as nat),
    {
        match &self.tag {
            Some(tag) => tag.clone(),
            None => to_decimal(field_index as u128),
        }
    }
}

/// The metadata of a variant as the generated code computes it.
#[derive(Debug, PartialEq, Eq)]
pub enum VariantMeta {
    /// That of the tag and of these fields.
    Fields(Vec<Qualified>),
    /// That of the tag.
    Unit,
}

/// The metadata of an enum as the generated code computes it.
#[derive(Debug, PartialEq, Eq)]
pub enum EnumMeta {
    /// That of no bytes.
    Empty {
        /// The path to the crate of the traits.
        crate_name: Path,
    },
    /// That of the variants, if they agree.
    Choose {
        /// The path to the crate of the traits.
        crate_name: Path,
        /// The encoding of the tag as an implementor of the trait.
        tag: Qualified,
        /// The names of the local bindings, one for each variant.
        names: Vec<String>,
        variants: Vec<VariantMeta>,
    },
}

/// Whether `meta` is computed for `variant`.
pub open spec fn is_meta_of(meta: VariantMeta, variant: Variant, tr: TraitImpl) -> bool {
    match meta {
        VariantMeta::Unit => variant.fields.style == Style::Unit,
        VariantMeta::Fields(targets) => {
            &&& variant.fields.style != Style::Unit
            &&& qualified_views(targets@) == qualified_all(
                unskipped(variant.fields.fields@),
                tr,
            )
        },
    }
}

/// Whether code can be generated for the fields of each variant.
pub open spec fn variants_ready(variants: Seq<Variant>) -> bool {
    forall|i: int|
        0 <= i < variants.len() ==> all_ready((#[trigger] variants[i]).fields.fields@)
}

/// The metadata of an enum. It is static only if all of its variants are serialized to the same
/// number of bytes, and never zero-copy: not every bit pattern is a discriminant.
pub fn enum_type_meta_impl(
    variants: &Vec<Variant>,
    trait_impl: TraitImpl,
    tag_encoding: &Type,
    crate_name: &Path,
) -> (meta: EnumMeta)
    requires
        variants_ready(variants@),
    ensures
        match meta {
            EnumMeta::Empty { crate_name: path } => {
                &&& variants@.len() == 0
                &&& path@ == crate_name@
            },
            EnumMeta::Choose { crate_name: path, tag, names, variants: metas } => {
                &&& variants@.len() > 0
                &&& path@ == crate_name@
                &&& tag@ == (tag_encoding@, qualifier_form(crate_name@, trait_impl, None))
                &&& names@.len() == variants@.len()
                &&& forall|i: int|
                    0 <= i < names@.len() ==> (#[trigger] names@[i])@ == anon_name(
                        "variant_"@,
                        i as nat,
                    )
                &&& metas@.len() == variants@.len()
                &&& forall|i: int|
                    0 <= i < metas@.len() ==> is_meta_of(
                        #[trigger] metas@[i],
                        variants@[i],
                        trait_impl,
                    )
            },
        },
{
    if variants.len() == 0 {
        return EnumMeta::Empty { crate_name: crate_name.clone() };
    }
    let names = anon_ident_iter(Some("variant_"), variants.len());
    let tag = Qualified {
        target: tag_encoding.clone(),
        qualifier: new_qualifier(crate_name, trait_impl),
    };
    let mut metas: Vec<VariantMeta> = Vec::new();
    let mut i: usize = 0;
    while i < variants.len()
        invariant
            i <= variants.len(),
            variants_ready(variants@),
            metas@.len() == i,
            forall|k: int|
                0 <= k < i ==> is_meta_of(#[trigger] metas@[k], variants@[k], trait_impl),
        decreases variants.len() - i,
    {
        let variant = &variants[i];
        assert(all_ready(variants@[i as int].fields.fields@));
        match variant.fields.style {
            Style::Struct | Style::Tuple => {
                metas.push(VariantMeta::Fields(variant.fields.unskipped_targets(trait_impl)));
            },
            Style::Unit => {
                metas.push(VariantMeta::Unit);
            },
        }
        i += 1;
    }
    EnumMeta::Choose { crate_name: crate_name.clone(), tag, names, variants: metas }
}

/// The metadata of a variant, where `tag` is that of the tag and `fields` that of the fields.
pub open spec fn variant_meta(meta: VariantMeta, tag: TypeMeta, fields: Seq<TypeMeta>) -> TypeMeta {
    match meta {
        VariantMeta::Fields(_) => with_zero_copy(joined(seq![tag] + fields), false),
        VariantMeta::Unit => with_zero_copy(tag, false),
    }
}

/// The metadata of the variants.
pub open spec fn variant_metas(
    metas: Seq<VariantMeta>,
    tag: TypeMeta,
    fields: Seq<Vec<TypeMeta>>,
) -> Seq<TypeMeta> {
    Seq::new(metas.len(), |i: int| variant_meta(metas[i], tag, fields[i]@))
}

/// The metadata of an enum.
pub open spec fn enum_meta(meta: EnumMeta, tag: TypeMeta, fields: Seq<Vec<TypeMeta>>) -> TypeMeta {
    match meta {
        EnumMeta::Empty { .. } => TypeMeta::Static { size: 0, zero_copy: false },
        EnumMeta::Choose { variants, .. } => chosen(variant_metas(variants@, tag, fields)),
    }
}

/// Whether there is metadata for each field of each variant, and the sizes add up to what a
/// `usize` holds.
pub open spec fn fits(meta: EnumMeta, tag: TypeMeta, fields: Seq<Vec<TypeMeta>>) -> bool {
    match meta {
        EnumMeta::Empty { .. } => true,
        EnumMeta::Choose { variants, .. } => {
            &&& variants@.len() > 0
            &&& fields.len() == variants@.len()
            &&& forall|i: int|
                #![trigger fields[i]]
                0 <= i < fields.len() ==> {
                    &&& variants@[i] matches VariantMeta::Fields(targets) ==> targets@.len()
                        == fields[i]@.len()
                    &&& all_static(seq![tag] + fields[i]@) ==> total_size(seq![tag] + fields[i]@)
                        <= usize::MAX
                }
        },
    }
}

impl EnumMeta {
    /// What the generated code computes, where `tag` is the metadata of the tag and `fields`
    /// that of the fields of each variant.
    pub fn evaluate(&self, tag: TypeMeta, fields: &Vec<Vec<TypeMeta>>) -> (meta: TypeMeta)
        requires
            fits(*self, tag, fields@),
        ensures
            meta == enum_meta(*self, tag, fields@),
    {
        match self {
            EnumMeta::Empty { .. } => TypeMeta::Static { size: 0, zero_copy: false },
            EnumMeta::Choose { variants, .. } => {
                let ghost want = variant_metas(variants@, tag, fields@);
                let mut metas: Vec<TypeMeta> = Vec::new();
                let mut i: usize = 0;
                while i < variants.len()
                    invariant
                        i <= variants.len(),
                        self matches EnumMeta::Choose { variants: v, .. } && v == variants,
                        fits(*self, tag, fields@),
                        want == variant_metas(variants@, tag, fields@),
                        metas@ =~= want.take(i as int),
                    decreases variants.len() - i,
                {
                    let ghost here = fields@[i as int];
                    let meta = match &variants[i] {
                        VariantMeta::Fields(_) => {
                            let parts = behind(tag, &fields[i]);
                            TypeMeta::join_types(&parts).keep_zero_copy(false)
                        },
                        VariantMeta::Unit => match tag {
                            TypeMeta::Static { size, .. } => TypeMeta::Static {
                                size,
                                zero_copy: false,
                            },
                            TypeMeta::Dynamic => TypeMeta::Dynamic,
                        },
                    };
                    assert(meta == want[i as int]);
                    metas.push(meta);
                    i += 1;
                }
                assert(metas@ =~= want);
                choose_variant(&metas)
            },
        }
    }
}

/// `fields` behind `tag`.
fn behind(tag: TypeMeta, fields: &Vec<TypeMeta>) -> (all: Vec<TypeMeta>)
    ensures
        all@ == seq![tag] + fields@,
{
    let mut all: Vec<TypeMeta> = Vec::new();
    all.push(tag);
    let mut i: usize = 0;
    while i < fields.len()
        invariant
            i <= fields.len(),
            all@ =~= seq![tag] + fields@.take(i as int),
        decreases fields.len() - i,
    {
        all.push(fields[i]);
        i += 1;
    }
    assert(fields@.take(i as int) =~= fields@);
    all
}

/// An enum is never zero-copy.
pub proof fn enums_are_never_zero_copy(
    meta: EnumMeta,
    tag: TypeMeta,
    fields: Seq<Vec<TypeMeta>>,
)
    requires
        fits(meta, tag, fields),
    ensures
        !is_zero_copy(enum_meta(meta, tag, fields)),
{
    if let EnumMeta::Choose { variants, .. } = meta {
        let metas = variant_metas(variants@, tag, fields);
        assert(!is_zero_copy(metas[0]));
    }
}

/// An enum with variants is static exactly if all of its variants are static and of the same
/// size, and has that size then.
pub proof fn enums_are_static_if_variants_agree(
    meta: EnumMeta,
    tag: TypeMeta,
    fields: Seq<Vec<TypeMeta>>,
    i: int,
)
    requires
        fits(meta, tag, fields),
        meta is Choose,
        0 <= i < meta->variants@.len(),
    ensures
        enum_meta(meta, tag, fields) is Static <==> same_size(
            variant_metas(meta->variants@, tag, fields),
        ),
        enum_meta(meta, tag, fields) is Static ==> size_of_meta(enum_meta(meta, tag, fields))
            == size_of_meta(variant_metas(meta->variants@, tag, fields)[i]),
{
    let metas = variant_metas(meta->variants@, tag, fields);
    if same_size(metas) {
        assert(metas[0] is Static);
        let _ = metas[i];
    }
}

/// An enum of which all variants are unit variants is as large as its tag.
pub proof fn unit_enums_are_as_large_as_their_tag(
    meta: EnumMeta,
    tag: TypeMeta,
    fields: Seq<Vec<TypeMeta>>,
)
    requires
        fits(meta, tag, fields),
        meta is Choose,
        forall|i: int| 0 <= i < meta->variants@.len() ==> (#[trigger] meta->variants@[i]) is Unit,
    ensures
        enum_meta(meta, tag, fields) == with_zero_copy(tag, false),
{
    let metas = variant_metas(meta->variants@, tag, fields);
    assert(meta->variants@[0] is Unit);
    assert forall|i: int| 0 <= i < metas.len() implies #[trigger] metas[i] == with_zero_copy(
        tag,
        false,
    ) by {
        assert(meta->variants@[i] is Unit);
    }
    assert(metas[0] == with_zero_copy(tag, false));
    if tag is Dynamic {
        assert(!same_size(metas)) by {
            let _ = metas[0];
        }
    } else {
        assert(same_size(metas));
    }
}

/// An enum with variants is static exactly if its tag and all fields of its variants are, and if
/// the size of the tag and the sizes of the fields add up to the same number of bytes for each
/// of the variants. A unit variant has no fields.
pub proof fn enums_are_as_large_as_tag_and_fields(
    meta: EnumMeta,
    tag: TypeMeta,
    fields: Seq<Vec<TypeMeta>>,
    size: usize,
)
    requires
        fits(meta, tag, fields),
        meta is Choose,
    ensures
        enum_meta(meta, tag, fields) == (TypeMeta::Static { size, zero_copy: false }) <==> {
            &&& tag matches TypeMeta::Static { size: of_tag, .. } && forall|i: int|
                #![trigger fields[i]]
                0 <= i < fields.len() ==> match meta->variants@[i] {
                    VariantMeta::Unit => size == of_tag,
                    VariantMeta::Fields(_) => {
                        &&& size == of_tag + total_size(fields[i]@)
                        &&& forall|k: int|
                            0 <= k < fields[i]@.len() ==> (#[trigger] fields[i]@[k]) is Static
                    },
                }
        },
        !(enum_meta(meta, tag, fields) matches TypeMeta::Static { zero_copy: true, .. }),
{
    let variants = meta->variants@;
    let metas = variant_metas(variants, tag, fields);
    enums_are_never_zero_copy(meta, tag, fields);
    variants_are_chosen_if_they_agree(metas, size);
    assert forall|i: int| 0 <= i < fields.len() implies ((#[trigger] metas[i] matches
        TypeMeta::Static { size: s, .. } && s == size) <==> (tag matches TypeMeta::Static {
        size: of_tag,
        ..
    } && match variants[i] {
        VariantMeta::Unit => size == of_tag,
        VariantMeta::Fields(_) => {
            &&& size == of_tag + total_size(fields[i]@)
            &&& forall|k: int| 0 <= k < fields[i]@.len() ==> (#[trigger] fields[i]@[k]) is Static
        },
    })) by {
        lemma_size_of_variant(variants[i], tag, fields[i]@, size);
    }
    if enum_meta(meta, tag, fields) == (TypeMeta::Static { size, zero_copy: false }) {
        assert(metas[0] is Static);
        assert(fields[0] == fields[0]);
        assert forall|i: int|
            #![trigger fields[i]]
            0 <= i < fields.len() implies (tag matches TypeMeta::Static { size: of_tag, .. }
            && match variants[i] {
            VariantMeta::Unit => size == of_tag,
            VariantMeta::Fields(_) => {
                &&& size == of_tag + total_size(fields[i]@)
                &&& forall|k: int|
                    0 <= k < fields[i]@.len() ==> (#[trigger] fields[i]@[k]) is Static
            },
        }) by {
            let _ = metas[i];
        }
    }
    if tag matches TypeMeta::Static { size: of_tag, .. } && forall|i: int|
        #![trigger fields[i]]
        0 <= i < fields.len() ==> match variants[i] {
            VariantMeta::Unit => size == of_tag,
            VariantMeta::Fields(_) => {
                &&& size == of_tag + total_size(fields[i]@)
                &&& forall|k: int|
                    0 <= k < fields[i]@.len() ==> (#[trigger] fields[i]@[k]) is Static
            },
        } {
        assert forall|i: int| 0 <= i < metas.len() implies (#[trigger] metas[i] matches
            TypeMeta::Static { size: s, .. } && s == size) by {
            let _ = fields[i];
        }
    }
}

proof fn lemma_size_of_variant(
    variant: VariantMeta,
    tag: TypeMeta,
    fields: Seq<TypeMeta>,
    size: usize,
)
    requires
        all_static(seq![tag] + fields) ==> total_size(seq![tag] + fields) <= usize::MAX,
    ensures
        (variant_meta(variant, tag, fields) matches TypeMeta::Static { size: s, .. } && s == size)
            <==> (tag matches TypeMeta::Static { size: of_tag, .. } && match variant {
            VariantMeta::Unit => size == of_tag,
            VariantMeta::Fields(_) => {
                &&& size == of_tag + total_size(fields)
                &&& forall|k: int| 0 <= k < fields.len() ==> (#[trigger] fields[k]) is Static
            },
        }),
{
    let all = seq![tag] + fields;
    sizes_add_up(seq![tag], fields, tag);
    assert(all[0] == tag);
    if all_static(all) {
        assert forall|k: int| 0 <= k < fields.len() implies (#[trigger] fields[k]) is Static by {
            assert(all[k + 1] == fields[k]);
        }
        assert(tag is Static);
    } else {
        let k = choose|k: int| 0 <= k < all.len() && !((#[trigger] all[k]) is Static);
        if k > 0 {
            assert(fields[k - 1] == all[k]);
        }
    }
}

/// An enum without variants is serialized to no bytes.
pub proof fn empty_enums_take_no_bytes(
    meta: EnumMeta,
    tag: TypeMeta,
    fields: Seq<Vec<TypeMeta>>,
)
    requires
        meta is Empty,
    ensures
        enum_meta(meta, tag, fields) == (TypeMeta::Static { size: 0, zero_copy: false }),
{
}

/// A unit variant is as large as the tag; any other one is the tag and, in order, those of its
/// fields that are not skipped.
pub proof fn variants_are_the_tag_and_their_fields(
    meta: VariantMeta,
    variant: Variant,
    tr: TraitImpl,
    i: int,
)
    requires
        is_meta_of(meta, variant, tr),
    ensures
        meta is Unit <==> variant.fields.style == Style::Unit,
        meta matches VariantMeta::Fields(targets) ==> {
            let fields = unskipped(variant.fields.fields@);
            &&& targets@.len() == fields.len()
            &&& 0 <= i < fields.len() ==> targets@[i].target@ == fields[i].qualified(tr).0
                && targets@[i].qualifier@ == fields[i].qualified(tr).1
        },
{
    if let VariantMeta::Fields(targets) = meta {
        let fields = unskipped(variant.fields.fields@);
        let views = qualified_views(targets@);
        let all = qualified_all(fields, tr);
        assert(views.len() == targets@.len());
        assert(all.len() == fields.len());
        if 0 <= i < fields.len() {
            assert(views[i] == targets@[i]@);
            assert(all[i] == fields[i].qualified(tr));
        }
    }
}

/// The literal that stands for a variant is the text of its tag, or else the number of its
/// index.
pub proof fn literals_are_tags_or_indexes(variant: Variant, index: nat)
    ensures
        variant.tag matches Some(tag) ==> variant.discriminant_text(index) == tag@,
        variant.tag is None ==> number(variant.discriminant_text(index)) == index,
        variant.tag is None && index > 0 ==> variant.discriminant_text(index)[0] != '0',
{
    decimal_texts_stand_for_their_number(index);
}

} // verus!
