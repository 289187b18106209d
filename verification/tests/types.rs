//! How the types of fields are rewritten.

use syn::{GenericArgument, PathArguments, TypeParamBound};
use wincode_derive::args::{
    check_tags, default_tag_encoding, get_crate_name, ArgsError, AssertZeroCopyConfig, Data,
    GenericParam, Generics, NestedMeta, SchemaArgs,
};
use wincode_derive::field::{Field, Member, SkipMode, TraitImpl};
use wincode_derive::fields::{FieldMeta, Fields, Style};
use wincode_derive::generics::{
    field_plan, generic_field_types, helper_args, new_declared_type,
};
use wincode_derive::meta::{FieldRun, TypeMeta};
use wincode_derive::repr::{
    apply_metas, extract_repr, Applied, Attribute, Layout, ReprError, StructRepr,
};
use wincode_derive::syntax::{Kind, Path, Syntax};
use wincode_derive::variant::{enum_type_meta_impl, Variant};

fn lifetime(lifetime: &syn::Lifetime) -> Syntax {
    Syntax::Lifetime(lifetime.ident.to_string())
}

fn expr(expr: &syn::Expr) -> Syntax {
    let child = match expr {
        syn::Expr::Path(path) => path_tree(&path.path),
        other => Syntax::Text(quote::ToTokens::to_token_stream(other).to_string()),
    };
    Syntax::Tree(Kind::Expression, vec![child])
}

fn argument(argument: &GenericArgument) -> Syntax {
    match argument {
        GenericArgument::Lifetime(l) => Syntax::Tree(Kind::LifetimeArgument, vec![lifetime(l)]),
        GenericArgument::Type(t) => Syntax::Tree(Kind::TypeArgument, vec![tree(t)]),
        GenericArgument::Const(e) => Syntax::Tree(Kind::ConstArgument, vec![expr(e)]),
        GenericArgument::AssocType(a) => Syntax::Tree(
            Kind::AssocType,
            vec![Syntax::Ident(a.ident.to_string()), tree(&a.ty)],
        ),
        _ => panic!("unexpected generic argument"),
    }
}

fn segment(segment: &syn::PathSegment) -> Syntax {
    let mut parts = vec![Syntax::Ident(segment.ident.to_string())];
    match &segment.arguments {
        PathArguments::None => {}
        PathArguments::AngleBracketed(args) => parts.push(Syntax::Tree(
            Kind::AngleBracketed {
                turbofish: args.colon2_token.is_some(),
            },
            args.args.iter().map(argument).collect(),
        )),
        PathArguments::Parenthesized(_) => panic!("unexpected arguments"),
    }
    Syntax::Tree(Kind::Segment, parts)
}

fn path_tree(path: &syn::Path) -> Syntax {
    Syntax::Tree(
        Kind::Path {
            leading_colon: path.leading_colon.is_some(),
        },
        path.segments.iter().map(segment).collect(),
    )
}

fn bound(bound: &TypeParamBound) -> Syntax {
    match bound {
        TypeParamBound::Lifetime(l) => lifetime(l),
        TypeParamBound::Trait(t) => Syntax::Tree(
            Kind::TraitBound {
                maybe: false,
                paren: false,
            },
            vec![path_tree(&t.path)],
        ),
        _ => panic!("unexpected bound"),
    }
}

fn tree(ty: &syn::Type) -> Syntax {
    match ty {
        syn::Type::Array(array) => {
            Syntax::Tree(Kind::Array, vec![tree(&array.elem), expr(&array.len)])
        }
        syn::Type::Slice(slice) => Syntax::Tree(Kind::Slice, vec![tree(&slice.elem)]),
        syn::Type::Infer(_) => Syntax::Tree(Kind::Infer, vec![]),
        syn::Type::Path(path) => Syntax::Tree(Kind::PathType, vec![path_tree(&path.path)]),
        syn::Type::Reference(reference) => {
            let mut parts: Vec<Syntax> = reference.lifetime.iter().map(lifetime).collect();
            parts.push(tree(&reference.elem));
            Syntax::Tree(
                Kind::Reference {
                    mutable: reference.mutability.is_some(),
                },
                parts,
            )
        }
        syn::Type::TraitObject(object) => Syntax::Tree(
            Kind::TraitObject {
                dyn_token: object.dyn_token.is_some(),
            },
            object.bounds.iter().map(bound).collect(),
        ),
        syn::Type::ImplTrait(object) => Syntax::Tree(
            Kind::ImplTrait,
            object.bounds.iter().map(bound).collect(),
        ),
        syn::Type::Tuple(tuple) => {
            Syntax::Tree(Kind::Tuple, tuple.elems.iter().map(tree).collect())
        }
        _ => panic!("unexpected type"),
    }
}

fn ty(text: &str) -> Syntax {
    tree(&syn::parse_str::<syn::Type>(text).unwrap())
}

fn path(text: &str) -> Path {
    match path_tree(&syn::parse_str::<syn::Path>(text).unwrap()) {
        Syntax::Tree(Kind::Path { leading_colon }, segments) => Path {
            leading_colon,
            segments,
        },
        _ => unreachable!(),
    }
}

fn path_syntax(text: &str) -> Syntax {
    path_tree(&syn::parse_str::<syn::Path>(text).unwrap())
}

#[test]
fn test_infer_generic() {
    let src = ty("Foo<_>");
    let infer = ty("Bar<u8>");
    assert_eq!(src.with_infer(&infer), ty("Foo<u8>"));

    let src = ty("Foo<_, _>");
    let infer = ty("Bar<u8, u16>");
    assert_eq!(src.with_infer(&infer), ty("Foo<u8, u16>"));

    let src = ty("Pod<_>");
    let infer = ty("[u8; u64]");
    assert_eq!(src.with_infer(&infer), ty("Pod<[u8; u64]>"));

    let src = ty("containers::Vec<containers::Pod<_>>");
    let infer = ty("Vec<u8>");
    assert_eq!(
        src.with_infer(&infer),
        ty("containers::Vec<containers::Pod<u8>>")
    );

    let src = ty("containers::Box<[Pod<_>]>");
    let infer = ty("Box<[u8]>");
    assert_eq!(src.with_infer(&infer), ty("containers::Box<[Pod<u8>]>"));

    let src = ty("containers::Box<[Pod<[_; 32]>]>");
    let infer = ty("Box<[u8; 32]>");
    assert_eq!(
        src.with_infer(&infer),
        ty("containers::Box<[Pod<[u8; 32]>]>")
    );

    // Not an actual use-case, but added for robustness.
    let src = ty("containers::Vec<containers::Box<[containers::Pod<_>]>>");
    let infer = ty("Vec<Box<[u8]>>");
    assert_eq!(
        src.with_infer(&infer),
        ty("containers::Vec<containers::Box<[containers::Pod<u8>]>>")
    );

    // Similarly, not a an actual use-case.
    let src = ty("Pair<containers::Box<[containers::Pod<_>]>, containers::Pod<_>>");
    let infer = ty("Pair<Box<[Foo<Bar<u8>>]>, u16>");
    assert_eq!(
        src.with_infer(&infer),
        ty("Pair<containers::Box<[containers::Pod<Foo<Bar<u8>>>]>, containers::Pod<u16>>")
    );
}

#[test]
fn every_placeholder_is_inferred() {
    assert_eq!(ty("Foo<[_]>").with_infer(&ty("Bar<[u8]>")), ty("Foo<[u8]>"));
    assert_eq!(ty("Foo<(_, _)>").with_infer(&ty("Bar<u8, u16>")), ty("Foo<(u8, u16)>"));
    assert_eq!(ty("Foo<&'a _>").with_infer(&ty("Bar<u8>")), ty("Foo<&'a u8>"));
    assert_eq!(ty("[_; 4]").with_infer(&ty("Bar<u8>")), ty("[u8; 4]"));
    assert_eq!(ty("[Foo<_>]").with_infer(&ty("Bar<u8>")), ty("[Foo<u8>]"));
    assert_eq!(ty("_").with_infer(&ty("u8")), ty("u8"));
    // From left to right, each with a type of its own.
    assert_eq!(
        ty("A<B<_>, [_; 2], (C<_>, _)>").with_infer(&ty("Z<u8, u16, u32, u64>")),
        ty("A<B<u8>, [u16; 2], (C<u32>, u64)>")
    );
    assert_eq!(ty("(_, _)").try_with_infer(&ty("u8")), None);
}

#[test]
fn arguments_that_give_themselves_are_not_looked_into() {
    assert_eq!(
        ty("Pair<_, _>").with_infer(&ty("Pair<(Foo<u8>, u16), u32>")),
        ty("Pair<(Foo<u8>, u16), u32>")
    );
    assert_eq!(
        ty("Pair<_, _>").with_infer(&ty("Pair<&'a Vec<u8>, u32>")),
        ty("Pair<&'a Vec<u8>, u32>")
    );
    assert_eq!(
        ty("Pair<_, _>").with_infer(&ty("Pair<[Vec<u8>; 3], u32>")),
        ty("Pair<Vec<u8>, u32>")
    );
}

#[test]
fn paths_without_type_arguments_give_themselves() {
    let vec = ty("containers::Vec<_>");
    assert_eq!(vec.with_infer(&ty("Vec<Foo<'a>>")), ty("containers::Vec<Foo<'a>>"));
    assert_eq!(vec.with_infer(&ty("Vec<Foo<3>>")), ty("containers::Vec<Foo<3>>"));
    assert_eq!(vec.with_infer(&ty("Vec<Foo<Out = u8>>")), ty("containers::Vec<Foo<Out = u8>>"));
    assert_eq!(vec.with_infer(&ty("Vec<Foo<'a, u8>>")), ty("containers::Vec<u8>"));
    let field = Field {
        with: Some(ty("containers::Vec<_>")),
        ..field(Some("x"), "Vec<Foo<'a>>")
    };
    assert_eq!(field.target_resolved(), ty("containers::Vec<Foo<'a>>"));
}

#[test]
fn inference_runs_out_of_types() {
    assert_eq!(ty("Foo<_, _>").try_with_infer(&ty("Bar<u8>")), None);
    assert_eq!(
        ty("Foo<_>").try_with_infer(&ty("Bar<u8, u16>")),
        Some(ty("Foo<u8>"))
    );
    // Without `_`, nothing changes.
    assert_eq!(ty("Foo<u8>").with_infer(&ty("Bar<u16>")), ty("Foo<u8>"));
}

#[test]
fn test_override_ref_lifetime() {
    let target = ty("Foo<'a>");
    assert_eq!(
        target.with_lifetime_excluding("de", &vec![]),
        ty("Foo<'de>")
    );

    let target = ty("&'a str");
    assert_eq!(
        target.with_lifetime_excluding("de", &vec![]),
        ty("&'de str")
    );
}

#[test]
fn lifetime_override_doesnt_clobber_static() {
    let target = ty("Foo<'static>");
    assert_eq!(
        target.with_lifetime_excluding("de", &vec![]),
        ty("Foo<'static>")
    );

    let target = ty("&'static str");
    assert_eq!(
        target.with_lifetime_excluding("de", &vec![]),
        ty("&'static str")
    );

    let target = ty("Option<&'static str>");
    assert_eq!(
        target.with_lifetime_excluding("de", &vec![]),
        ty("Option<&'static str>")
    );
}

#[test]
fn lifetime_override_preserves_excluded_lifetimes() {
    let target = ty("Foo<'ctx, &'input str, &'ctx str, &'static str, &str>");
    let exclude = vec!["ctx".to_string()];
    assert_eq!(
        target.with_lifetime_excluding("de", &exclude),
        ty("Foo<'ctx, &'de str, &'ctx str, &'static str, &'de str>")
    );
}

#[test]
fn lifetime_override_reaches_bounds_and_elided_references() {
    let none = vec![];
    assert_eq!(
        ty("Box<dyn Foo + 'a>").with_lifetime_excluding("de", &none),
        ty("Box<dyn Foo + 'de>")
    );
    assert_eq!(
        ty("Box<impl Foo + 'a>").with_lifetime_excluding("de", &none),
        ty("Box<impl Foo + 'de>")
    );
    assert_eq!(
        ty("&mut [&str]").with_lifetime_excluding("de", &none),
        ty("&'de mut [&'de str]")
    );
    // Replacing twice is replacing once.
    let once = ty("(&'a u8, &u8, Foo<'b>)").with_lifetime_excluding("de", &none);
    assert_eq!(once.with_lifetime_excluding("de", &none), once);
}

#[test]
fn test_has_lifetime() {
    assert!(ty("&'a Foo").has_lifetime());
    assert!(ty("Foo<'b, 'c>").has_lifetime());
}

#[test]
fn types_without_lifetimes_have_none() {
    assert!(!ty("&Foo").has_lifetime());
    assert!(!ty("Foo<u8>").has_lifetime());
    assert_eq!(ty("Foo<'b, &'c u8, 'b>").lifetimes(), ["b", "c", "b"]);
}

#[test]
fn test_contains_lifetime() {
    let ty = ty("Foo<'a, Option<&'b str>, &'static str>");
    assert!(ty.contains_lifetime(&"a".to_string()));
    assert!(ty.contains_lifetime(&"b".to_string()));
    assert!(ty.contains_lifetime(&"static".to_string()));
    assert!(!ty.contains_lifetime(&"c".to_string()));
}

fn field(name: Option<&str>, text: &str) -> Field {
    Field {
        ident: name.map(str::to_string),
        ty: ty(text),
        with: None,
        skip: None,
        context_flag: false,
        context: None,
        crate_name: None,
        context_lifetimes: vec![],
    }
}

fn with(name: &str, text: &str, target: &str) -> Field {
    Field {
        with: Some(ty(target)),
        ..field(Some(name), text)
    }
}

fn flagged(name: &str, text: &str) -> Field {
    Field {
        context_flag: true,
        ..field(Some(name), text)
    }
}

fn skipped(name: &str, text: &str) -> Field {
    Field {
        skip: Some(SkipMode::Default),
        ..field(Some(name), text)
    }
}

fn struct_fields(fields: Vec<Field>) -> Fields {
    Fields {
        style: Style::Struct,
        fields,
    }
}

fn args(data: Data) -> SchemaArgs {
    SchemaArgs {
        ident: "Declared".to_string(),
        generics: Generics { params: vec![] },
        data,
        internal: false,
        tag_encoding: None,
        assert_zero_copy: None,
        crate_path: None,
        context: None,
    }
}

fn validated(mut fields: Vec<Field>, context: Option<&str>) -> Vec<Field> {
    let mut given = args(Data::Struct(struct_fields(std::mem::take(&mut fields))));
    given.context = context.map(ty);
    match given.validate().unwrap().data {
        Data::Struct(fields) => fields.fields,
        Data::Enum(_) => unreachable!(),
    }
}

#[test]
fn constraints_name_the_types_of_fields() {
    let fields = validated(
        vec![
            with("a", "&'a [u8]", "Pod<_>"),
            flagged("b", "Foo<'ctx, 'x>"),
        ],
        Some("Bump<'ctx>"),
    );
    assert_eq!(
        fields[0].as_constraint(TraitImpl::SchemaRead),
        path_syntax("::wincode::SchemaRead<'de, __WincodeConfig, Dst = &'de [u8]>")
    );
    assert_eq!(
        fields[0].as_constraint(TraitImpl::SchemaWrite),
        path_syntax("::wincode::SchemaWrite<__WincodeConfig, Src = &'a [u8]>")
    );
    assert_eq!(
        fields[1].as_constraint(TraitImpl::SchemaRead),
        path_syntax(
            "::wincode::SchemaReadContext<'de, __WincodeConfig, Bump<'ctx>, Dst = Foo<'ctx, 'de>>"
        )
    );
    assert_eq!(
        fields[1].qualifier(TraitImpl::SchemaRead),
        path_syntax("::wincode::SchemaReadContext<'de, __WincodeConfig, Bump<'ctx>>")
    );
    assert_eq!(
        fields[1].qualifier(TraitImpl::SchemaWrite),
        path_syntax("::wincode::SchemaWrite<__WincodeConfig>")
    );
    let read = fields[0].target_fully_qualified(TraitImpl::SchemaRead);
    assert_eq!(read.target, ty("Pod<&'de [u8]>"));
    assert_eq!(
        read.qualifier,
        path_syntax("::wincode::SchemaRead<'de, __WincodeConfig>")
    );
    let write = fields[0].target_fully_qualified(TraitImpl::SchemaWrite);
    assert_eq!(write.target, ty("Pod<&'a [u8]>"));
    assert_eq!(*fields[0].target(), ty("Pod<_>"));
    assert_eq!(*fields[1].target(), ty("Foo<'ctx, 'x>"));
}

#[test]
fn members_are_named_or_counted() {
    let fields = Fields {
        style: Style::Tuple,
        fields: vec![
            field(None, "u8"),
            field(Some("named"), "&'a u8"),
            field(None, "u16"),
        ],
    };
    let members: Vec<Member> = fields
        .struct_members_iter()
        .into_iter()
        .map(|(_, member)| member)
        .collect();
    assert_eq!(
        members,
        [
            Member::Unnamed(0),
            Member::Named("named".to_string()),
            Member::Unnamed(2)
        ]
    );
    let names: Vec<String> = fields
        .enum_members_iter(Some("field_"))
        .into_iter()
        .map(|(_, name)| name)
        .collect();
    assert_eq!(names, ["field_a", "named", "field_b"]);
    assert_eq!(fields.fields[2].struct_member_ident_to_string(12), "12");
    assert_eq!(fields.fields[1].struct_member_ident_to_string(12), "named");
    assert_eq!(fields.fields_with_lifetime_iter(), [&fields.fields[1]]);
    assert_eq!(fields.len(), 3);
}

#[test]
fn skipped_fields_count_for_nothing() {
    let fields = struct_fields(validated(
        vec![
            field(Some("a"), "u8"),
            skipped("b", "String"),
            field(Some("c"), "u16"),
        ],
        None,
    ));
    let metas = fields.run_metas(TraitImpl::SchemaWrite, &path("::wincode"));
    assert!(matches!(&metas[0], FieldMeta::Of(target) if target.target == ty("u8")));
    assert_eq!(metas[1], FieldMeta::Skipped(path("::wincode")));
    assert_eq!(
        fields.unskipped_iter(),
        [&fields.fields[0], &fields.fields[2]]
    );

    let eligible = StructRepr { layout: Layout::C };
    let meta = fields.type_meta_impl(TraitImpl::SchemaWrite, &eligible, &path("::wincode"));
    assert_eq!(meta.fields.len(), 2);
    let byte = TypeMeta::Static { size: 1, zero_copy: true };
    let word = TypeMeta::Static { size: 2, zero_copy: true };
    // Padding is not zero-copy, and neither is a layout that says nothing.
    assert_eq!(
        meta.evaluate(&vec![byte, word], 4),
        TypeMeta::Static { size: 3, zero_copy: false }
    );
    assert_eq!(
        meta.evaluate(&vec![byte, word], 3),
        TypeMeta::Static { size: 3, zero_copy: true }
    );
    assert_eq!(
        meta.evaluate(&vec![byte, TypeMeta::Dynamic], 3),
        TypeMeta::Dynamic
    );
    let meta = fields.type_meta_impl(
        TraitImpl::SchemaWrite,
        &StructRepr::default(),
        &path("::wincode"),
    );
    assert_eq!(
        meta.evaluate(&vec![byte, word], 3),
        TypeMeta::Static { size: 3, zero_copy: false }
    );

    let plan = field_plan(
        &args(Data::Enum(vec![])),
        &fields,
        TraitImpl::SchemaRead,
        &path("::wincode"),
    );
    assert_eq!(plan.access.target, ty("Declared"));
    assert_eq!(
        plan.access.qualifier,
        path_syntax("__WincodeFieldPlan<'de, __WincodeConfig>")
    );
    assert_eq!(plan.num_fields, 3);
    let run = FieldRun::Static { start: 0, end: 2, size: 1 };
    assert_eq!(
        plan.evaluate(&vec![byte, TypeMeta::Dynamic, TypeMeta::Dynamic]),
        [run, run, FieldRun::Dynamic]
    );
}

#[test]
fn skip_modes_are_expressions() {
    let default = SkipMode::Default.default_val_token_stream();
    assert_eq!(
        default,
        Syntax::Tree(
            Kind::Expression,
            vec![
                path_syntax("Default::default"),
                Syntax::Text("()".to_string())
            ]
        )
    );
    let value = expr(&syn::parse_str::<syn::Expr>("7").unwrap());
    assert_eq!(
        SkipMode::DefaultVal(value.clone()).default_val_token_stream(),
        value
    );
}

fn variant(name: &str, tag: Option<&str>, fields: Vec<Field>) -> Variant {
    Variant {
        ident: name.to_string(),
        fields: Fields {
            style: if fields.is_empty() {
                Style::Unit
            } else {
                Style::Struct
            },
            fields,
        },
        tag: tag.map(str::to_string),
    }
}

fn tags(tags: &[Option<&str>]) -> Result<(), ArgsError> {
    let variants = tags
        .iter()
        .map(|tag| variant("V", *tag, vec![]))
        .collect();
    args(Data::Enum(variants)).validate_variant_tags()
}

#[test]
fn discriminants_must_be_unique() {
    assert_eq!(tags(&[]), Ok(()));
    assert_eq!(tags(&[None, None, None]), Ok(()));
    assert_eq!(tags(&[Some("1"), None]), Err(ArgsError::DuplicateDiscriminant { variant: 1, tag: 1 }));
    assert_eq!(tags(&[Some("2"), None, Some("0")]), Ok(()));
    // The same value, in another notation.
    assert_eq!(
        tags(&[Some("16"), None, Some("0x10")]),
        Err(ArgsError::DuplicateDiscriminant { variant: 2, tag: 16 })
    );
    assert_eq!(
        tags(&[Some("1_000u32"), Some("1000")]),
        Err(ArgsError::DuplicateDiscriminant { variant: 1, tag: 1000 })
    );
    assert_eq!(
        tags(&[None, Some("-1")]),
        Err(ArgsError::InvalidTag {
            variant: 1,
            message: "invalid digit found in string".to_string()
        })
    );
    let too_large = || "number too large to fit in target type".to_string();
    assert_eq!(
        tags(&[Some("340282366920938463463374607431768211456")]),
        Err(ArgsError::InvalidTag { variant: 0, message: too_large() })
    );
    assert_eq!(
        ArgsError::InvalidTag { variant: 0, message: too_large() }.message(),
        too_large()
    );
    assert_eq!(
        tags(&[Some("340282366920938463463374607431768211455")]),
        Ok(())
    );
    assert_eq!(args(Data::Struct(struct_fields(vec![]))).validate_variant_tags(), Ok(()));
    assert_eq!(
        check_tags(&vec![Ok(5), Err(too_large())]),
        Err(ArgsError::InvalidTag { variant: 1, message: too_large() })
    );
    assert_eq!(
        check_tags(&vec![Ok(5), Ok(4), Ok(5)]),
        Err(ArgsError::DuplicateDiscriminant { variant: 2, tag: 5 })
    );
}

#[test]
fn refusals_are_explained() {
    assert_eq!(
        ArgsError::DuplicateDiscriminant { variant: 3, tag: 17 }.message(),
        "duplicate enum discriminant 17"
    );
    assert_eq!(
        ArgsError::MissingContext { variant: 0, field: 1 }.message(),
        "`#[wincode(context)]` requires a top-level `context = \"...\"`"
    );
}

#[test]
fn discriminants_are_tags_or_indices() {
    assert_eq!(variant("A", Some("0x10"), vec![]).discriminant(3), "0x10");
    assert_eq!(variant("A", None, vec![]).discriminant(3), "3");
}

#[test]
fn fields_are_populated_with_the_context() {
    let fields = validated(
        vec![field(Some("a"), "u8"), flagged("b", "Foo<'ctx>")],
        Some("Bump<'ctx>"),
    );
    assert_eq!(fields[0].crate_name, Some(path("::wincode")));
    assert_eq!(fields[0].context, None);
    assert_eq!(fields[1].crate_name, Some(path("::wincode")));
    assert_eq!(fields[1].context, Some(ty("Bump<'ctx>")));
    assert_eq!(fields[1].context_lifetimes, ["ctx"]);
}

#[test]
fn fields_lack_a_context() {
    let mut given = args(Data::Enum(vec![
        variant("A", None, vec![field(Some("a"), "u8")]),
        variant("B", None, vec![field(Some("b"), "u8"), flagged("c", "u8")]),
    ]));
    assert_eq!(
        given.populate_field_metadata(),
        Err(ArgsError::MissingContext { variant: 1, field: 1 })
    );
    let given = args(Data::Struct(struct_fields(vec![flagged("a", "u8")])));
    assert_eq!(
        given.validate(),
        Err(ArgsError::MissingContext { variant: 0, field: 0 })
    );
    // Discriminants are looked at first.
    let given = args(Data::Enum(vec![
        variant("A", Some("1"), vec![flagged("a", "u8")]),
        variant("B", None, vec![]),
    ]));
    assert_eq!(
        given.validate(),
        Err(ArgsError::DuplicateDiscriminant { variant: 1, tag: 1 })
    );
}

#[test]
fn the_crate_is_given_internal_or_wincode() {
    let mut given = args(Data::Enum(vec![]));
    assert_eq!(get_crate_name(&given), path("::wincode"));
    given.internal = true;
    assert_eq!(get_crate_name(&given), path("crate"));
    given.crate_path = Some(path("other::reexport"));
    assert_eq!(get_crate_name(&given), path("other::reexport"));
    assert_eq!(default_tag_encoding(), ty("__WincodeConfig::TagEncoding"));
}

#[test]
fn zero_copy_is_asserted_for_one_configuration() {
    assert_eq!(
        AssertZeroCopyConfig::from_word(),
        Ok(AssertZeroCopyConfig(None))
    );
    assert_eq!(
        AssertZeroCopyConfig::from_list(&vec![NestedMeta::Path(path("my::Config"))]),
        Ok(AssertZeroCopyConfig(Some(path("my::Config"))))
    );
    assert_eq!(
        AssertZeroCopyConfig::from_list(&vec![]),
        Err(ArgsError::TooManyItems)
    );
    assert_eq!(
        AssertZeroCopyConfig::from_list(&vec![NestedMeta::Other]),
        Err(ArgsError::UnexpectedType)
    );
}

fn params() -> Generics {
    Generics {
        params: vec![
            GenericParam::Lifetime("a".to_string()),
            GenericParam::Type("T".to_string()),
            GenericParam::Const("N".to_string()),
            GenericParam::Type("U".to_string()),
        ],
    }
}

#[test]
fn helpers_are_given_types_and_constants() {
    assert_eq!(helper_args(&params()), ["T", "N", "U"]);
}

#[test]
fn declared_types_have_lifetimes_first() {
    let swapped = Generics {
        params: vec![
            GenericParam::Type("T".to_string()),
            GenericParam::Lifetime("a".to_string()),
        ],
    };
    assert_eq!(
        new_declared_type("Declared", &swapped),
        ty("Declared<'a, T>")
    );
    let none = Generics { params: vec![] };
    assert_eq!(new_declared_type("Declared", &none), ty("Declared"));
}

#[test]
fn bounds_are_needed_for_fields_that_mention_a_type_parameter() {
    let fields = vec![
        with("values", "Vec<T>", "containers::Vec<_, BincodeLen>"),
        field(Some("count"), "u64"),
        skipped("rest", "T"),
        field(Some("again"), "Option<U>"),
        field(Some("twice"), "Option<U>"),
        with("other", "Vec<T>", "containers::Vec<_, ShortLen>"),
    ];
    let data = Data::Struct(struct_fields(fields));
    let names: Vec<&str> = generic_field_types(&data, &params())
        .into_iter()
        .map(|field| field.ident.as_deref().unwrap())
        .collect();
    assert_eq!(names, ["values", "again", "other"]);

    // Over the variants of an enum, each bound is asked for once.
    let data = Data::Enum(vec![
        variant("A", None, vec![field(Some("x"), "T"), field(Some("y"), "u8")]),
        variant("B", None, vec![field(Some("z"), "T"), field(Some("w"), "Box<U>")]),
    ]);
    let names: Vec<&str> = generic_field_types(&data, &params())
        .into_iter()
        .map(|field| field.ident.as_deref().unwrap())
        .collect();
    assert_eq!(names, ["x", "w"]);

    // The name of a lifetime is no mention of a type parameter.
    let data = Data::Struct(struct_fields(vec![
        field(Some("borrowed"), "&'T u8"),
        field(Some("both"), "Foo<'T, T>"),
    ]));
    let names: Vec<&str> = generic_field_types(&data, &params())
        .into_iter()
        .map(|field| field.ident.as_deref().unwrap())
        .collect();
    assert_eq!(names, ["both"]);

    let none = Generics { params: vec![GenericParam::Const("N".to_string())] };
    assert!(generic_field_types(&data, &none).is_empty());
}

fn repr(lists: &[Option<&str>]) -> Result<StructRepr, ReprError> {
    let attrs = lists
        .iter()
        .map(|args| Attribute {
            name: Some("repr".to_string()),
            text: match args {
                Some(args) => format!("#[repr({args})]"),
                None => "#[repr]".to_string(),
            },
        })
        .collect();
    extract_repr(&attrs, "SchemaRead")
}

#[test]
fn representations_are_found() {
    let rust = StructRepr { layout: Layout::Rust };
    let c = StructRepr { layout: Layout::C };
    let transparent = StructRepr { layout: Layout::Transparent };
    assert_eq!(repr(&[]), Ok(rust));
    assert_eq!(repr(&[Some("C")]), Ok(c));
    assert_eq!(repr(&[Some("transparent")]), Ok(transparent));
    assert_eq!(repr(&[Some("C, align(8)")]), Ok(c));
    assert_eq!(repr(&[Some("u8")]), Ok(rust));
    // A layout is found wherever it stands in the list, and the last one named wins.
    assert_eq!(repr(&[Some("align(8), C")]), Ok(c));
    assert_eq!(repr(&[Some("align(8), transparent, Rust")]), Ok(transparent));
    assert_eq!(repr(&[Some("transparent, a::b(1), C")]), Ok(c));
    assert_eq!(repr(&[Some("a::C, ::transparent")]), Ok(rust));
    assert_eq!(repr(&[Some("align(8)"), Some("C")]), Ok(c));
    assert!(c.is_zero_copy_eligible());
    assert!(transparent.is_zero_copy_eligible());
    assert!(!rust.is_zero_copy_eligible());
    // Other attributes are not looked at.
    let other = |name: Option<&str>| Attribute {
        name: name.map(str::to_string),
        text: "#[derive(C)]".to_string(),
    };
    let others = vec![other(Some("derive")), other(None)];
    assert_eq!(extract_repr(&others, "SchemaRead"), Ok(rust));
}

#[test]
fn packed_types_are_refused() {
    let message = "`SchemaRead` cannot be derived for types annotated with `#[repr(packed)]` \
                   or `#[repr(packed(n))]`";
    for list in ["packed", "packed(2)", "C, packed", "align(8), packed"] {
        assert_eq!(
            repr(&[Some(list)]),
            Err(ReprError::Packed(0, message.to_string()))
        );
    }
    assert_eq!(
        repr(&[Some("C"), Some("packed")]),
        Err(ReprError::Packed(1, message.to_string()))
    );
    assert_eq!(repr(&[Some("Rust, packed")]), repr(&[Some("packed")]));
    let malformed = |at: usize, message: &str| Err(ReprError::Malformed(at, message.to_string()));
    assert_eq!(repr(&[Some("C C")]), malformed(0, "expected `,`"));
    assert_eq!(repr(&[Some("C(1)")]), malformed(0, "expected `,`"));
    assert_eq!(repr(&[Some("C(1), packed")]), malformed(0, "expected `,`"));
    assert_eq!(repr(&[Some("C"), Some("transparent = 1")]), malformed(1, "expected `,`"));
    assert_eq!(
        repr(&[Some("C, 5")]),
        malformed(0, "unexpected literal in nested attribute, expected ident")
    );
    assert_eq!(
        repr(&[None]),
        malformed(0, "expected attribute arguments in parentheses: #[repr(...)]")
    );
    // Behind a name that is not known, a layout with an argument is no error, and no layout.
    assert_eq!(repr(&[Some("align(8), C(1)")]), repr(&[]));
    assert_eq!(repr(&[Some("transparent, align(8), C(1)")]), repr(&[Some("transparent")]));
    // Where there is no list of metas, a name that is not known ends the reading.
    assert_eq!(repr(&[Some("align(8) C")]), repr(&[]));
    assert_eq!(repr(&[Some("C, packed 5")]), repr(&[Some("packed")]));
    let name = |text: &str| Some(text.to_string());
    let expected = || Some("expected `,`".to_string());
    let align = (name("align"), false);
    assert_eq!(
        apply_metas(
            Layout::Rust,
            &(vec![name("align")], expected()),
            &Some(vec![align, (name("C"), true)])
        ),
        Applied::Layout(Layout::C)
    );
    assert_eq!(
        apply_metas(Layout::C, &(vec![None], None), &Some(vec![(None, true)])),
        Applied::Layout(Layout::C)
    );
    assert_eq!(
        apply_metas(
            Layout::Rust,
            &(vec![name("C")], expected()),
            &Some(vec![(name("C"), false)])
        ),
        Applied::Malformed("expected `,`".to_string())
    );
    assert_eq!(
        apply_metas(Layout::Rust, &(vec![name("C"), name("align")], expected()), &None),
        Applied::Layout(Layout::C)
    );
    assert_eq!(
        apply_metas(Layout::Rust, &(vec![name("packed")], expected()), &None),
        Applied::Packed
    );
}

#[test]
fn enums_are_static_if_their_variants_agree() {
    let fields = validated(vec![field(Some("a"), "u8")], None);
    let mut pair = validated(vec![field(Some("a"), "u8"), field(Some("b"), "u8")], None);
    pair.truncate(1);
    let variants = vec![variant("A", None, fields), variant("B", None, pair)];
    let meta = enum_type_meta_impl(
        &variants,
        TraitImpl::SchemaRead,
        &default_tag_encoding(),
        &path("::wincode"),
    );
    let tag = TypeMeta::Static { size: 4, zero_copy: true };
    let one = TypeMeta::Static { size: 1, zero_copy: true };
    let two = TypeMeta::Static { size: 2, zero_copy: true };
    assert_eq!(
        meta.evaluate(tag, &vec![vec![one], vec![one]]),
        TypeMeta::Static { size: 5, zero_copy: false }
    );
    assert_eq!(meta.evaluate(tag, &vec![vec![one], vec![two]]), TypeMeta::Dynamic);
    assert_eq!(
        meta.evaluate(TypeMeta::Dynamic, &vec![vec![one], vec![one]]),
        TypeMeta::Dynamic
    );

    let units = vec![variant("A", None, vec![]), variant("B", None, vec![])];
    let meta = enum_type_meta_impl(
        &units,
        TraitImpl::SchemaWrite,
        &default_tag_encoding(),
        &path("::wincode"),
    );
    assert_eq!(
        meta.evaluate(tag, &vec![vec![], vec![]]),
        TypeMeta::Static { size: 4, zero_copy: false }
    );
    let meta = enum_type_meta_impl(
        &vec![],
        TraitImpl::SchemaWrite,
        &default_tag_encoding(),
        &path("::wincode"),
    );
    assert_eq!(
        meta.evaluate(tag, &vec![]),
        TypeMeta::Static { size: 0, zero_copy: false }
    );
}
