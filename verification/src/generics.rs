//! What depends on the generic parameters of a declaration.

use crate::args::{all_fields, fields_of_variants, Data, GenericParam, Generics, SchemaArgs};
use crate::field::{
    config_argument, input_argument, named_type, new_named_type, new_segment, new_segment_with,
    new_trait_args, new_wrapper, plain_segment, segment_with, trait_args, trait_path, Field,
    Qualified, TraitImpl,
};
use crate::fields::{all_ready, is_meta_of_field, referents, FieldMeta, Fields};
use crate::lifetimes::{idents_of, lemma_mentions, overlap, stands_in};
use crate::meta::{is_plan, runs_fit, FieldRun, TypeMeta};
use crate::syntax::{forms, lemma_forms_push, opt_form, Form, Kind, Path, Syntax, Type};
use crate::text::texts;
use crate::variant::Variant;
use vstd::prelude::*;

verus! {

/// The names of the parameters that a helper is given explicitly: types and constants, but no
/// lifetimes.
pub open spec fn helper_names(params: Seq<GenericParam>) -> Seq<Seq<char>>
    decreases params.len(),
{
    if params.len() == 0 {
        seq![]
    } else {
        match params.last() {
            GenericParam::Lifetime(_) => helper_names(params.drop_last()),
            GenericParam::Type(name) => helper_names(params.drop_last()).push(name@),
            GenericParam::Const(name) => helper_names(params.drop_last()).push(name@),
        }
    }
}

/// The names of the type parameters.
pub open spec fn type_names(params: Seq<GenericParam>) -> Seq<Seq<char>>
    decreases params.len(),
{
    if params.len() == 0 {
        seq![]
    } else {
        match params.last() {
            GenericParam::Type(name) => type_names(params.drop_last()).push(name@),
            _ => type_names(params.drop_last()),
        }
    }
}

/// The explicit arguments of a generated helper. Lifetimes are inferred.
pub fn helper_args(generics: &Generics) -> (names: Vec<String>)
    ensures
        texts(names@) == helper_names(generics.params@),
{
    let params = &generics.params;
    let mut names: Vec<String> = Vec::new();
    let mut i: usize = 0;
    assert(texts(names@) =~= helper_names(params@.take(0)));
    while i < params.len()
        invariant
            i <= params.len(),
            texts(names@) == helper_names(params@.take(i as int)),
        decreases params.len() - i,
    {
        assert(params@.take(i + 1).drop_last() =~= params@.take(i as int));
        let ghost before = names@;
        match &params[i] {
            GenericParam::Lifetime(_) => (),
            GenericParam::Type(name) => {
                names.push(name.clone());
                assert(texts(names@) =~= texts(before).push(name@));
            },
            GenericParam::Const(name) => {
                names.push(name.clone());
                assert(texts(names@) =~= texts(before).push(name@));
            },
        }
        i += 1;
    }
    assert(params@.take(i as int) =~= params@);
    names
}

/// The names of the type parameters.
fn type_params(generics: &Generics) -> (names: Vec<String>)
    ensures
        texts(names@) == type_names(generics.params@),
{
    let params = &generics.params;
    let mut names: Vec<String> = Vec::new();
    let mut i: usize = 0;
    assert(texts(names@) =~= type_names(params@.take(0)));
    while i < params.len()
        invariant
            i <= params.len(),
            texts(names@) == type_names(params@.take(i as int)),
        decreases params.len() - i,
    {
        assert(params@.take(i + 1).drop_last() =~= params@.take(i as int));
        let ghost before = names@;
        if let GenericParam::Type(name) = &params[i] {
            names.push(name.clone());
            assert(texts(names@) =~= texts(before).push(name@));
        }
        i += 1;
    }
    assert(params@.take(i as int) =~= params@);
    names
}

/// A lifetime parameter as an argument.
pub open spec fn lifetime_argument(name: Seq<char>) -> Form {
    Form::Tree(Kind::LifetimeArgument, seq![Form::Lifetime(name)])
}

/// A type parameter as an argument.
pub open spec fn type_argument(name: Seq<char>) -> Form {
    Form::Tree(Kind::TypeArgument, seq![named_type(name)])
}

/// A constant parameter as an argument.
pub open spec fn const_argument(name: Seq<char>) -> Form {
    Form::Tree(
        Kind::ConstArgument,
        seq![
            Form::Tree(
                Kind::Expression,
                seq![Form::Tree(Kind::Path { leading_colon: false }, seq![plain_segment(name)])],
            ),
        ],
    )
}

/// The lifetime parameters as arguments, or the other ones.
pub open spec fn own_args(params: Seq<GenericParam>, lifetimes: bool) -> Seq<Form>
    decreases params.len(),
{
    if params.len() == 0 {
        seq![]
    } else {
        let before = own_args(params.drop_last(), lifetimes);
        match params.last() {
            GenericParam::Lifetime(name) => if lifetimes {
                before.push(lifetime_argument(name@))
            } else {
                before
            },
            GenericParam::Type(name) => if lifetimes {
                before
            } else {
                before.push(type_argument(name@))
            },
            GenericParam::Const(name) => if lifetimes {
                before
            } else {
                before.push(const_argument(name@))
            },
        }
    }
}

/// The declared type with its parameters as arguments, lifetimes first.
pub open spec fn declared_type(ident: Seq<char>, params: Seq<GenericParam>) -> Form {
    let segment = if params.len() == 0 {
        plain_segment(ident)
    } else {
        segment_with(ident, own_args(params, true) + own_args(params, false))
    };
    Form::Tree(
        Kind::PathType,
        seq![Form::Tree(Kind::Path { leading_colon: false }, seq![segment])],
    )
}

/// Appends the lifetime parameters as arguments, or the other ones.
fn add_own_args(params: &Vec<GenericParam>, lifetimes: bool, args: &mut Vec<Syntax>)
    ensures
        forms(final(args)@) == forms(old(args)@) + own_args(params@, lifetimes),
{
    let mut i: usize = 0;
    assert(forms(args@) + own_args(params@.take(0), lifetimes) =~= forms(args@));
    while i < params.len()
        invariant
            i <= params.len(),
            forms(args@) == forms(old(args)@) + own_args(params@.take(i as int), lifetimes),
        decreases params.len() - i,
    {
        let ghost before = args@;
        let ghost taken = own_args(params@.take(i as int), lifetimes);
        assert(params@.take(i + 1).drop_last() =~= params@.take(i as int));
        let arg: Option<Syntax> = match &params[i] {
            GenericParam::Lifetime(name) => if lifetimes {
                Some(new_wrapper(Kind::LifetimeArgument, Syntax::Lifetime(name.clone())))
            } else {
                None
            },
            GenericParam::Type(name) => if lifetimes {
                None
            } else {
                Some(new_wrapper(Kind::TypeArgument, new_named_type(name.as_str())))
            },
            GenericParam::Const(name) => if lifetimes {
                None
            } else {
                let path = new_wrapper(
                    Kind::Path { leading_colon: false },
                    new_segment(name.as_str()),
                );
                Some(new_wrapper(Kind::ConstArgument, new_wrapper(Kind::Expression, path)))
            },
        };
        if let Some(node) = arg {
            proof {
                lemma_forms_push(before, node);
                assert(forms(old(args)@) + taken.push(node@) =~= (forms(old(args)@) + taken).push(
                    node@,
                ));
            }
            args.push(node);
        }
        i += 1;
    }
    assert(params@.take(i as int) =~= params@);
}

/// The declared type with its parameters as arguments.
pub fn new_declared_type(ident: &str, generics: &Generics) -> (ty: Type)
    ensures
        ty@ == declared_type(ident@, generics.params@),
{
    let segment = if generics.params.len() == 0 {
        new_segment(ident)
    } else {
        let mut args: Vec<Syntax> = Vec::new();
        add_own_args(&generics.params, true, &mut args);
        add_own_args(&generics.params, false, &mut args);
        assert(forms(args@) =~= own_args(generics.params@, true) + own_args(
            generics.params@,
            false,
        ));
        new_segment_with(ident, args)
    };
    new_wrapper(Kind::PathType, new_wrapper(Kind::Path { leading_colon: false }, segment))
}

/// The plan of a declaration: how it is looked up, and the metadata of its fields.
#[derive(Debug, PartialEq, Eq)]
pub struct FieldPlan {
    /// The declared type, as the implementor of a trait that holds the plan for the
    /// configuration and, for reading, the lifetime of the input.
    pub access: Qualified,
    /// The path to the crate of the traits.
    pub crate_name: Path,
    pub num_fields: usize,
    /// The metadata of the fields in the order of their declaration.
    pub metas: Vec<FieldMeta>,
}

/// The trait that holds a plan: `__WincodeFieldPlan`, with the arguments of the trait that is
/// implemented.
pub open spec fn plan_trait(tr: TraitImpl) -> Form {
    Form::Tree(
        Kind::Path { leading_colon: false },
        seq![segment_with("__WincodeFieldPlan"@, trait_args(tr, None))],
    )
}

/// The plan of how the fields of a declaration are grouped for reading or writing. It does not
/// depend on the field that is looked up in it.
pub fn field_plan(
    args: &SchemaArgs,
    fields: &Fields,
    trait_impl: TraitImpl,
    crate_name: &Path,
) -> (plan: FieldPlan)
    requires
        all_ready(fields.fields@),
    ensures
        plan.access@ == (
            declared_type(args.ident@, args.generics.params@),
            plan_trait(trait_impl),
        ),
        plan.crate_name@ == crate_name@,
        plan.num_fields == fields.fields@.len(),
        plan.metas@.len() == fields.fields@.len(),
        forall|i: int|
            0 <= i < plan.metas@.len() ==> is_meta_of_field(
                #[trigger] plan.metas@[i],
                fields.fields@[i],
                trait_impl,
                crate_name@,
            ),
{
    let none: Option<Syntax> = None;
    let qualifier = new_wrapper(
        Kind::Path { leading_colon: false },
        new_segment_with("__WincodeFieldPlan", new_trait_args(trait_impl, &none)),
    );
    let target = new_declared_type(args.ident.as_str(), &args.generics);
    FieldPlan {
        access: Qualified { target, qualifier },
        crate_name: crate_name.clone(),
        num_fields: fields.len(),
        metas: fields.run_metas(trait_impl, crate_name),
    }
}

/// The metadata of the fields, where that of a skipped field is that of no bytes.
pub open spec fn planned_metas(plan: Seq<FieldMeta>, metas: Seq<TypeMeta>) -> Seq<TypeMeta> {
    Seq::new(
        plan.len(),
        |i: int|
            match plan[i] {
                FieldMeta::Skipped(_) => TypeMeta::Static { size: 0, zero_copy: false },
                FieldMeta::Of(_) => metas[i],
            },
    )
}

impl FieldPlan {
    /// The runs that the generated code finds, where `metas` is the metadata of the fields.
    /// What it says of skipped fields is of no account.
    pub fn evaluate(&self, metas: &Vec<TypeMeta>) -> (runs: Vec<FieldRun>)
        requires
            metas@.len() == self.metas@.len(),
            runs_fit(planned_metas(self.metas@, metas@)),
        ensures
            is_plan(planned_metas(self.metas@, metas@), runs@),
    {
        let mut planned: Vec<TypeMeta> = Vec::new();
        let mut i: usize = 0;
        while i < self.metas.len()
            invariant
                i <= self.metas.len(),
                metas@.len() == self.metas@.len(),
                planned@ =~= planned_metas(self.metas@, metas@).take(i as int),
            decreases self.metas.len() - i,
        {
            match &self.metas[i] {
                FieldMeta::Skipped(_) => planned.push(
                    TypeMeta::Static { size: 0, zero_copy: false },
                ),
                FieldMeta::Of(_) => planned.push(metas[i]),
            }
            i += 1;
        }
        assert(planned@ =~= planned_metas(self.metas@, metas@));
        TypeMeta::field_runs(&planned)
    }
}

/// Whether the target of a field that is not skipped mentions one of the names.
pub open spec fn is_generic_field(field: Field, names: Seq<Seq<char>>) -> bool {
    field.skip is None && overlap(idents_of(field.resolved()), names)
}

/// Whether two fields need the same bound: they have the same target, type and context.
pub open spec fn needs_same_bound(field: Field, other: Field) -> bool {
    &&& field.resolved() == other.resolved()
    &&& field.ty@ == other.ty@
    &&& opt_form(field.context) == opt_form(other.context)
}

/// Whether one of the fields needs the bound of `field`.
pub open spec fn bound_is_needed(fields: Seq<Field>, field: Field) -> bool {
    exists|i: int| 0 <= i < fields.len() && needs_same_bound(#[trigger] fields[i], field)
}

/// The fields whose targets mention one of the names, without those that need the bound of one
/// before them.
pub open spec fn generic_fields(fields: Seq<Field>, names: Seq<Seq<char>>) -> Seq<Field>
    decreases fields.len(),
{
    if fields.len() == 0 {
        seq![]
    } else {
        let before = generic_fields(fields.drop_last(), names);
        let field = fields.last();
        if is_generic_field(field, names) && !bound_is_needed(before, field) {
            before.push(field)
        } else {
            before
        }
    }
}

/// Whether two fields need the same bound.
fn same_bound(target: &Type, field: &Field, other_target: &Type, other: &Field) -> (same: bool)
    requires
        target@ == field.resolved(),
        other_target@ == other.resolved(),
    ensures
        same == needs_same_bound(*field, *other),
{
    if !target.same(other_target) || !field.ty.same(&other.ty) {
        return false;
    }
    match (&field.context, &other.context) {
        (Some(context), Some(other_context)) => context.same(other_context),
        (None, None) => true,
        _ => false,
    }
}

/// Whether every `_` in the targets of the fields that are not skipped can be inferred.
pub open spec fn all_resolvable(fields: Seq<Field>) -> bool {
    forall|i: int|
        0 <= i < fields.len() && fields[i].skip is None ==> (#[trigger] fields[i]).resolvable()
}

/// Whether the types are the targets of the fields.
spec fn are_targets(targets: Seq<Type>, fields: Seq<&Field>) -> bool {
    &&& targets.len() == fields.len()
    &&& forall|i: int|
        0 <= i < targets.len() ==> (#[trigger] targets[i])@ == fields[i].resolved()
}

/// Adds the fields whose targets mention one of the names, without those that need the bound
/// of one before them.
fn visit_fields<'a>(
    fields: &'a Vec<Field>,
    names: &Vec<String>,
    targets: &mut Vec<Type>,
    result: &mut Vec<&'a Field>,
    Ghost(seen): Ghost<Seq<Field>>,
)
    requires
        all_resolvable(fields@),
        referents(old(result)@) == generic_fields(seen, texts(names@)),
        are_targets(old(targets)@, old(result)@),
    ensures
        referents(final(result)@) == generic_fields(seen + fields@, texts(names@)),
        are_targets(final(targets)@, final(result)@),
{
    let mut i: usize = 0;
    assert(seen + fields@.take(0) =~= seen);
    while i < fields.len()
        invariant
            i <= fields.len(),
            all_resolvable(fields@),
            referents(result@) == generic_fields(
                seen + fields@.take(i as int),
                texts(names@),
            ),
            are_targets(targets@, result@),
        decreases fields.len() - i,
    {
        let ghost part = seen + fields@.take(i + 1);
        assert(part.drop_last() =~= seen + fields@.take(i as int));
        assert(part.last() == fields@[i as int]);
        let field = &fields[i];
        if field.skip.is_none() {
            assert(fields@[i as int].resolvable());
            let target = field.target_resolved();
            if target.mentions(names) {
                let mut needed = false;
                let mut k: usize = 0;
                while k < result.len() && !needed
                    invariant
                        k <= result.len(),
                        are_targets(targets@, result@),
                        target@ == field.resolved(),
                        needed ==> bound_is_needed(referents(result@), *field),
                        !needed ==> forall|n: int|
                            0 <= n < k ==> !needs_same_bound(
                                #[trigger] referents(result@)[n],
                                *field,
                            ),
                    decreases result.len() - k,
                {
                    needed = same_bound(&targets[k], result[k], &target, field);
                    assert(referents(result@)[k as int] == *result@[k as int]);
                    k += 1;
                }
                if !needed {
                    let ghost before = result@;
                    targets.push(target);
                    result.push(field);
                    assert(referents(result@) =~= referents(before).push(*field));
                }
            }
        }
        i += 1;
    }
    assert(fields@.take(i as int) =~= fields@);
}

/// The fields whose targets mention a type parameter, each bound that they need once.
///
/// The implementation for such a target is called by the generated code, and its type of
/// source or destination must be that of the field.
pub fn generic_field_types<'a>(data: &'a Data, generics: &Generics) -> (fields: Vec<&'a Field>)
    requires
        type_names(generics.params@).len() > 0 ==> all_resolvable(all_fields(*data)),
    ensures
        referents(fields@) == generic_fields(all_fields(*data), type_names(generics.params@)),
{
    let names = type_params(generics);
    let mut result: Vec<&'a Field> = Vec::new();
    if names.len() == 0 {
        proof {
            assert(texts(names@).len() == 0);
            lemma_no_names(all_fields(*data), texts(names@));
        }
        assert(referents(result@) =~= seq![]);
        return result;
    }
    assert(texts(names@).len() > 0);
    let mut targets: Vec<Type> = Vec::new();
    let ghost none = Seq::<Field>::empty();
    assert(referents(result@) =~= generic_fields(none, texts(names@)));
    match data {
        Data::Struct(fields) => {
            visit_fields(&fields.fields, &names, &mut targets, &mut result, Ghost(none));
            assert(none + fields.fields@ =~= fields.fields@);
        },
        Data::Enum(variants) => {
            let mut i: usize = 0;
            assert(fields_of_variants(variants@.take(0)) =~= none);
            while i < variants.len()
                invariant
                    i <= variants.len(),
                    all_resolvable(fields_of_variants(variants@)),
                    referents(result@) == generic_fields(
                        fields_of_variants(variants@.take(i as int)),
                        texts(names@),
                    ),
                    are_targets(targets@, result@),
                decreases variants.len() - i,
            {
                assert(variants@.take(i + 1).drop_last() =~= variants@.take(i as int));
                proof {
                    lemma_variant_resolvable(variants@, i as int);
                }
                visit_fields(
                    &variants[i].fields.fields,
                    &names,
                    &mut targets,
                    &mut result,
                    Ghost(fields_of_variants(variants@.take(i as int))),
                );
                i += 1;
            }
            assert(variants@.take(i as int) =~= variants@);
        },
    }
    result
}

proof fn lemma_no_names(fields: Seq<Field>, names: Seq<Seq<char>>)
    requires
        names.len() == 0,
    ensures
        generic_fields(fields, names).len() == 0,
    decreases fields.len(),
{
    if fields.len() > 0 {
        lemma_no_names(fields.drop_last(), names);
    }
}

proof fn lemma_variant_resolvable(variants: Seq<Variant>, i: int)
    requires
        all_resolvable(fields_of_variants(variants)),
        0 <= i < variants.len(),
    ensures
        all_resolvable(variants[i].fields.fields@),
    decreases variants.len(),
{
    let init = variants.drop_last();
    let all = fields_of_variants(variants);
    let before = fields_of_variants(init);
    let last = variants.last().fields.fields@;
    if i == variants.len() - 1 {
        assert forall|k: int| 0 <= k < last.len() && last[k].skip is None implies (
        #[trigger] last[k]).resolvable() by {
            assert(all[before.len() + k] == last[k]);
        }
    } else {
        assert forall|k: int| 0 <= k < before.len() && before[k].skip is None implies (
        #[trigger] before[k]).resolvable() by {
            assert(all[k] == before[k]);
        }
        lemma_variant_resolvable(init, i);
    }
}

/// Each field whose target mentions a type parameter finds the bound that it needs.
pub proof fn every_generic_field_is_bounded(fields: Seq<Field>, names: Seq<Seq<char>>, i: int)
    requires
        0 <= i < fields.len(),
        is_generic_field(fields[i], names),
    ensures
        bound_is_needed(generic_fields(fields, names), fields[i]),
    decreases fields.len(),
{
    let before = generic_fields(fields.drop_last(), names);
    let now = generic_fields(fields, names);
    let field = fields[i];
    if i == fields.len() - 1 {
        if !bound_is_needed(before, field) {
            assert(needs_same_bound(now[now.len() - 1], field));
        }
    } else {
        every_generic_field_is_bounded(fields.drop_last(), names, i);
        let k = choose|k: int|
            0 <= k < before.len() && needs_same_bound(#[trigger] before[k], field);
        assert(now[k] == before[k]);
    }
}

/// No bound is asked for twice.
pub proof fn bounds_are_asked_for_once(
    fields: Seq<Field>,
    names: Seq<Seq<char>>,
    i: int,
    j: int,
)
    requires
        0 <= i < j < generic_fields(fields, names).len(),
    ensures
        !needs_same_bound(generic_fields(fields, names)[i], generic_fields(fields, names)[j]),
    decreases fields.len(),
{
    let before = generic_fields(fields.drop_last(), names);
    if j < before.len() {
        bounds_are_asked_for_once(fields.drop_last(), names, i, j);
    } else {
        assert(generic_fields(fields, names)[i] == before[i]);
    }
}

/// A field that is not skipped, and whose target holds the identifier of a type parameter at any
/// depth, finds among the returned fields one with its target, its type and its context.
pub proof fn fields_that_hold_a_parameter_are_bounded(
    fields: Seq<Field>,
    names: Seq<Seq<char>>,
    i: int,
    name: Seq<char>,
)
    requires
        0 <= i < fields.len(),
        fields[i].skip is None,
        names.contains(name),
        stands_in(Form::Ident(name), fields[i].resolved()),
    ensures
        exists|k: int|
            0 <= k < generic_fields(fields, names).len() && {
                let bounded = #[trigger] generic_fields(fields, names)[k];
                &&& bounded.resolved() == fields[i].resolved()
                &&& bounded.ty@ == fields[i].ty@
                &&& opt_form(bounded.context) == opt_form(fields[i].context)
            },
{
    let found = generic_fields(fields, names);
    lemma_mentions(fields[i].resolved(), names);
    every_generic_field_is_bounded(fields, names, i);
    let k = choose|k: int| 0 <= k < found.len() && needs_same_bound(#[trigger] found[k], fields[i]);
    assert(found[k].resolved() == fields[i].resolved());
}

/// Only fields of the declaration are returned that are not skipped and whose target holds the
/// identifier of a type parameter.
pub proof fn only_fields_that_hold_a_parameter_are_bounded(
    fields: Seq<Field>,
    names: Seq<Seq<char>>,
    k: int,
)
    requires
        0 <= k < generic_fields(fields, names).len(),
    ensures
        fields.contains(generic_fields(fields, names)[k]),
        generic_fields(fields, names)[k].skip is None,
        exists|name: Seq<char>|
            names.contains(name) && #[trigger] stands_in(
                Form::Ident(name),
                generic_fields(fields, names)[k].resolved(),
            ),
    decreases fields.len(),
{
    let init = fields.drop_last();
    let before = generic_fields(init, names);
    let found = generic_fields(fields, names);
    if k < before.len() {
        only_fields_that_hold_a_parameter_are_bounded(init, names, k);
        assert(found[k] == before[k]);
        let i = choose|i: int| 0 <= i < init.len() && init[i] == before[k];
        assert(fields[i] == found[k]);
    } else {
        lemma_mentions(fields.last().resolved(), names);
        assert(fields[fields.len() - 1] == found[k]);
    }
}

/// The returned fields are in the order of the declaration: those of the first fields come
/// first, whatever follows.
pub proof fn bounds_are_in_order(first: Seq<Field>, second: Seq<Field>, names: Seq<Seq<char>>)
    ensures
        generic_fields(first, names).len() <= generic_fields(first + second, names).len(),
        generic_fields(first, names) == generic_fields(first + second, names).take(
            generic_fields(first, names).len() as int,
        ),
    decreases second.len(),
{
    let found = generic_fields(first, names);
    if second.len() == 0 {
        assert(first + second =~= first);
        assert(found.take(found.len() as int) =~= found);
    } else {
        bounds_are_in_order(first, second.drop_last(), names);
        assert((first + second).drop_last() =~= first + second.drop_last());
        let before = generic_fields(first + second.drop_last(), names);
        let now = generic_fields(first + second, names);
        assert(now.take(found.len() as int) =~= before.take(found.len() as int));
    }
}

/// The arguments of a helper are the types and constants, in order, and no lifetimes.
pub proof fn helpers_are_given_types_and_constants(
    first: Seq<GenericParam>,
    second: Seq<GenericParam>,
    param: GenericParam,
)
    ensures
        helper_names(first + second) == helper_names(first) + helper_names(second),
        helper_names(seq![param]) == match param {
            GenericParam::Lifetime(_) => seq![],
            GenericParam::Type(name) => seq![name@],
            GenericParam::Const(name) => seq![name@],
        },
        helper_names(seq![]) == Seq::<Seq<char>>::empty(),
    decreases second.len(),
{
    assert(seq![param].drop_last() =~= seq![]);
    reveal_with_fuel(helper_names, 2);
    assert(helper_names(seq![param]) =~= match param {
        GenericParam::Lifetime(_) => seq![],
        GenericParam::Type(name) => seq![name@],
        GenericParam::Const(name) => seq![name@],
    });
    if second.len() == 0 {
        assert(first + second =~= first);
        assert(helper_names(first) + helper_names(second) =~= helper_names(first));
    } else {
        helpers_are_given_types_and_constants(first, second.drop_last(), param);
        assert((first + second).drop_last() =~= first + second.drop_last());
        assert((first + second).last() == second.last());
        assert(helper_names(first + second) =~= helper_names(first) + helper_names(second));
    }
}

/// The names of the type parameters are those of the types, in order, and no others.
pub proof fn type_names_are_those_of_types(
    first: Seq<GenericParam>,
    second: Seq<GenericParam>,
    param: GenericParam,
)
    ensures
        type_names(first + second) == type_names(first) + type_names(second),
        type_names(seq![param]) == match param {
            GenericParam::Lifetime(_) => seq![],
            GenericParam::Type(name) => seq![name@],
            GenericParam::Const(_) => seq![],
        },
        type_names(seq![]) == Seq::<Seq<char>>::empty(),
    decreases second.len(),
{
    assert(seq![param].drop_last() =~= seq![]);
    reveal_with_fuel(type_names, 2);
    assert(type_names(seq![param]) =~= match param {
        GenericParam::Lifetime(_) => seq![],
        GenericParam::Type(name) => seq![name@],
        GenericParam::Const(_) => seq![],
    });
    if second.len() == 0 {
        assert(first + second =~= first);
        assert(type_names(first) + type_names(second) =~= type_names(first));
    } else {
        type_names_are_those_of_types(first, second.drop_last(), param);
        assert((first + second).drop_last() =~= first + second.drop_last());
        assert((first + second).last() == second.last());
        assert(type_names(first + second) =~= type_names(first) + type_names(second));
    }
}

/// Each parameter is an argument of the declared type once, in order: the lifetimes in one list,
/// the types and constants in the other.
pub proof fn parameters_are_passed_on(
    first: Seq<GenericParam>,
    second: Seq<GenericParam>,
    param: GenericParam,
    lifetimes: bool,
)
    ensures
        own_args(first + second, lifetimes) == own_args(first, lifetimes) + own_args(
            second,
            lifetimes,
        ),
        own_args(seq![param], lifetimes) == match param {
            GenericParam::Lifetime(name) => if lifetimes {
                seq![Form::Tree(Kind::LifetimeArgument, seq![Form::Lifetime(name@)])]
            } else {
                seq![]
            },
            GenericParam::Type(name) => if lifetimes {
                seq![]
            } else {
                seq![Form::Tree(
                    Kind::TypeArgument,
                    seq![Form::Tree(Kind::PathType, seq![single_path(name@)])],
                )]
            },
            GenericParam::Const(name) => if lifetimes {
                seq![]
            } else {
                seq![Form::Tree(
                    Kind::ConstArgument,
                    seq![Form::Tree(Kind::Expression, seq![single_path(name@)])],
                )]
            },
        },
        own_args(seq![], lifetimes) == Seq::<Form>::empty(),
    decreases second.len(),
{
    assert(seq![param].drop_last() =~= seq![]);
    reveal_with_fuel(own_args, 2);
    assert(own_args(seq![], lifetimes) =~= Seq::<Form>::empty());
    let own = own_args(seq![param], lifetimes);
    match param {
        GenericParam::Lifetime(name) => {
            if lifetimes {
                assert(own =~= seq![lifetime_argument(name@)]);
            } else {
                assert(own =~= seq![]);
            }
        },
        GenericParam::Type(name) => {
            if lifetimes {
                assert(own =~= seq![]);
            } else {
                assert(own =~= seq![type_argument(name@)]);
            }
        },
        GenericParam::Const(name) => {
            if lifetimes {
                assert(own =~= seq![]);
            } else {
                assert(own =~= seq![const_argument(name@)]);
            }
        },
    }
    if second.len() == 0 {
        assert(first + second =~= first);
        assert(own_args(first, lifetimes) + own_args(second, lifetimes) =~= own_args(
            first,
            lifetimes,
        ));
    } else {
        parameters_are_passed_on(first, second.drop_last(), param, lifetimes);
        assert((first + second).drop_last() =~= first + second.drop_last());
        assert((first + second).last() == second.last());
        assert(own_args(first + second, lifetimes) =~= own_args(first, lifetimes) + own_args(
            second,
            lifetimes,
        ));
    }
}

/// A path of one name.
pub open spec fn single_path(name: Seq<char>) -> Form {
    Form::Tree(
        Kind::Path { leading_colon: false },
        seq![Form::Tree(Kind::Segment, seq![Form::Ident(name)])],
    )
}

/// The declared type is the path of its name: alone without parameters, else with the lifetimes
/// as arguments and the other parameters behind them.
pub proof fn declarations_are_named_with_their_parameters(
    ident: Seq<char>,
    params: Seq<GenericParam>,
)
    ensures
        params.len() == 0 ==> declared_type(ident, params) == Form::Tree(
            Kind::PathType,
            seq![single_path(ident)],
        ),
        params.len() > 0 ==> declared_type(ident, params) == Form::Tree(
            Kind::PathType,
            seq![
                Form::Tree(
                    Kind::Path { leading_colon: false },
                    seq![
                        Form::Tree(
                            Kind::Segment,
                            seq![
                                Form::Ident(ident),
                                Form::Tree(
                                    Kind::AngleBracketed { turbofish: false },
                                    own_args(params, true) + own_args(params, false),
                                ),
                            ],
                        ),
                    ],
                ),
            ],
        ),
{
}

/// A skipped field counts as one of no bytes that is not zero-copy, and any other field as what
/// it is.
pub proof fn skipped_fields_take_no_bytes(plan: Seq<FieldMeta>, metas: Seq<TypeMeta>, i: int)
    requires
        0 <= i < plan.len(),
        metas.len() == plan.len(),
    ensures
        planned_metas(plan, metas).len() == plan.len(),
        plan[i] is Skipped ==> planned_metas(plan, metas)[i] == (TypeMeta::Static {
            size: 0,
            zero_copy: false,
        }),
        plan[i] is Of ==> planned_metas(plan, metas)[i] == metas[i],
{
}

/// A plan is held by the trait `__WincodeFieldPlan`, for the configuration and, for reading, for
/// the lifetime of the input.
pub proof fn plans_are_held_for_the_configuration()
    ensures
        plan_trait(TraitImpl::SchemaRead) == trait_path(
            Kind::Path { leading_colon: false },
            seq![],
            "__WincodeFieldPlan"@,
            seq![input_argument(), config_argument()],
        ),
        plan_trait(TraitImpl::SchemaWrite) == trait_path(
            Kind::Path { leading_colon: false },
            seq![],
            "__WincodeFieldPlan"@,
            seq![config_argument()],
        ),
{
    let read = segment_with("__WincodeFieldPlan"@, seq![input_argument(), config_argument()]);
    let write = segment_with("__WincodeFieldPlan"@, seq![config_argument()]);
    assert(seq![] + seq![read] =~= seq![read]);
    assert(seq![] + seq![write] =~= seq![write]);
}

/// Of two returned fields the targets, the types or the contexts differ.
pub proof fn returned_fields_need_different_bounds(
    fields: Seq<Field>,
    names: Seq<Seq<char>>,
    i: int,
    j: int,
)
    requires
        0 <= i < j < generic_fields(fields, names).len(),
    ensures
        ({
            let field = generic_fields(fields, names)[i];
            let other = generic_fields(fields, names)[j];
            ||| field.resolved() != other.resolved()
            ||| field.ty@ != other.ty@
            ||| opt_form(field.context) != opt_form(other.context)
        }),
{
    bounds_are_asked_for_once(fields, names, i, j);
}

} // verus!
