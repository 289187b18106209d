//! The fields of a struct or of a variant, taken together.

use crate::field::{Field, Member, Qualified, TraitImpl};
use crate::lifetimes::{lifetimes_are_found_at_any_depth, lifetimes_of, stands_in};
use crate::meta::{all_static, join_struct, struct_meta, total_size, TypeMeta};
use crate::names::{anon_ident, anon_name, anon_names_are_distinct, prefix_text};
use crate::repr::{Layout, StructRepr};
use crate::syntax::{Form, Path};
use vstd::prelude::*;

verus! {

/// How fields are declared.
#[derive(Debug, Clone, Copy, PartialEq, Eq, Structural)]
pub enum Style {
    Tuple,
    Struct,
    Unit,
}

/// The fields of a struct or of a variant, in the order of their declaration.
#[derive(Debug, PartialEq, Eq)]
pub struct Fields {
    pub style: Style,
    pub fields: Vec<Field>,
}

/// The metadata of a field as the generated code names it.
#[derive(Debug, PartialEq, Eq)]
pub enum FieldMeta {
    /// That of no bytes, for a skipped field, by the path to the crate of the traits.
    Skipped(Path),
    /// `<Target as Trait>::TYPE_META`.
    Of(Qualified),
}

/// The metadata of a struct as the generated code computes it.
#[derive(Debug, PartialEq, Eq)]
pub struct StructMeta {
    /// The path to the crate of the traits.
    pub crate_name: Path,
    /// The fields that are not skipped.
    pub fields: Vec<Qualified>,
    /// Whether the layout of the struct allows for zero-copy.
    pub eligible: bool,
}

/// The fields that are not skipped.
pub open spec fn unskipped(fields: Seq<Field>) -> Seq<Field>
    decreases fields.len(),
{
    if fields.len() == 0 {
        seq![]
    } else if fields.last().skip is None {
        unskipped(fields.drop_last()).push(fields.last())
    } else {
        unskipped(fields.drop_last())
    }
}

/// The fields whose type holds a lifetime.
pub open spec fn with_lifetime(fields: Seq<Field>) -> Seq<Field>
    decreases fields.len(),
{
    if fields.len() == 0 {
        seq![]
    } else if lifetimes_of(fields.last().ty@).len() > 0 {
        with_lifetime(fields.drop_last()).push(fields.last())
    } else {
        with_lifetime(fields.drop_last())
    }
}

/// How many fields have no name.
pub open spec fn unnamed(fields: Seq<Field>) -> nat
    decreases fields.len(),
{
    if fields.len() == 0 {
        0
    } else {
        unnamed(fields.drop_last()) + if fields.last().ident is None {
            1nat
        } else {
            0nat
        }
    }
}

/// The name by which the field at `i` of a variant is bound: its own, or the next anonymous
/// one.
pub open spec fn member_name(fields: Seq<Field>, prefix: Seq<char>, i: int) -> Seq<char> {
    match fields[i].ident {
        Some(ident) => ident@,
        None => anon_name(prefix, unnamed(fields.take(i))),
    }
}

/// The fields that references lead to.
pub open spec fn referents(fields: Seq<&Field>) -> Seq<Field> {
    Seq::new(fields.len(), |i: int| *fields[i])
}

/// Whether code can be generated for the field: the crate of the traits is known, and every
/// `_` can be inferred.
pub open spec fn is_ready(field: Field) -> bool {
    field.crate_name is Some && field.resolvable()
}

/// Whether code can be generated for each field that is not skipped.
pub open spec fn all_ready(fields: Seq<Field>) -> bool {
    forall|i: int| 0 <= i < fields.len() && fields[i].skip is None ==> is_ready(#[trigger] fields[i])
}

/// The targets as implementors of the trait.
pub open spec fn qualified_all(fields: Seq<Field>, tr: TraitImpl) -> Seq<
    (Form, Form),
> {
    Seq::new(fields.len(), |i: int| fields[i].qualified(tr))
}

/// The views of the qualified targets.
pub open spec fn qualified_views(targets: Seq<Qualified>) -> Seq<
    (Form, Form),
> {
    Seq::new(targets.len(), |i: int| targets[i]@)
}

/// Whether the index of each field without a name can be that of a member.
pub open spec fn can_count(fields: Seq<Field>) -> bool {
    forall|i: int|
        0 <= i < fields.len() && (#[trigger] fields[i]).ident is None ==> i < u32::MAX
}

/// Whether `meta` names the metadata of the field.
pub open spec fn is_meta_of_field(
    meta: FieldMeta,
    field: Field,
    tr: TraitImpl,
    crate_name: Form,
) -> bool {
    match meta {
        FieldMeta::Skipped(path) => field.skip is Some && path@ == crate_name,
        FieldMeta::Of(target) => field.skip is None && target@ == field.qualified(tr),
    }
}

impl Fields {
    /// The number of fields.
    pub fn len(&self) -> (len: usize)
        ensures
            len == self.fields@.len(),
    {
        self.fields.len()
    }

    /// The metadata of the fields in the order of their declaration. A skipped field counts as
    /// an operation on no bytes.
    pub fn run_metas(&self, trait_impl: TraitImpl, crate_name: &Path) -> (metas: Vec<FieldMeta>)
        requires
            all_ready(self.fields@),
        ensures
            metas@.len() == self.fields@.len(),
            forall|i: int|
                0 <= i < metas@.len() ==> is_meta_of_field(
                    #[trigger] metas@[i],
                    self.fields@[i],
                    trait_impl,
                    crate_name@,
                ),
    {
        let mut metas: Vec<FieldMeta> = Vec::new();
        let mut i: usize = 0;
        while i < self.fields.len()
            invariant
                i <= self.fields.len(),
                all_ready(self.fields@),
                metas@.len() == i,
                forall|k: int|
                    0 <= k < i ==> is_meta_of_field(
                        #[trigger] metas@[k],
                        self.fields@[k],
                        trait_impl,
                        crate_name@,
                    ),
            decreases self.fields.len() - i,
        {
            let field = &self.fields[i];
            if field.skip.is_some() {
                metas.push(FieldMeta::Skipped(crate_name.clone()));
            } else {
                assert(is_ready(self.fields@[i as int]));
                metas.push(FieldMeta::Of(field.target_fully_qualified(trait_impl)));
            }
            i += 1;
        }
        metas
    }

    /// The targets of the fields that are not skipped, as implementors of the trait.
    pub fn unskipped_targets(&self, trait_impl: TraitImpl) -> (targets: Vec<Qualified>)
        requires
            all_ready(self.fields@),
        ensures
            qualified_views(targets@) == qualified_all(unskipped(self.fields@), trait_impl),
    {
        let mut targets: Vec<Qualified> = Vec::new();
        let mut i: usize = 0;
        assert(qualified_views(targets@) =~= qualified_all(
            unskipped(self.fields@.take(0)),
            trait_impl,
        ));
        while i < self.fields.len()
            invariant
                i <= self.fields.len(),
                all_ready(self.fields@),
                qualified_views(targets@) == qualified_all(
                    unskipped(self.fields@.take(i as int)),
                    trait_impl,
                ),
            decreases self.fields.len() - i,
        {
            let ghost part = self.fields@.take(i + 1);
            assert(part.drop_last() =~= self.fields@.take(i as int));
            let field = &self.fields[i];
            if field.skip.is_none() {
                assert(is_ready(self.fields@[i as int]));
                let target = field.target_fully_qualified(trait_impl);
                let ghost before = targets@;
                targets.push(target);
                assert(qualified_views(targets@) =~= qualified_views(before).push(target@));
                assert(qualified_all(unskipped(part), trait_impl) =~= qualified_all(
                    unskipped(part.drop_last()),
                    trait_impl,
                ).push(field.qualified(trait_impl)));
            }
            i += 1;
        }
        assert(self.fields@.take(i as int) =~= self.fields@);
        targets
    }

    /// The metadata of a struct with these fields: static if all of the fields are, with the
    /// sum of their sizes; zero-copy if moreover all of the fields are, the layout allows for
    /// it and there is no padding.
    pub fn type_meta_impl(
        &self,
        trait_impl: TraitImpl,
        repr: &StructRepr,
        crate_name: &Path,
    ) -> (meta: StructMeta)
        requires
            all_ready(self.fields@),
        ensures
            meta.crate_name@ == crate_name@,
            qualified_views(meta.fields@) == qualified_all(unskipped(self.fields@), trait_impl),
            meta.eligible == (repr.layout == Layout::Transparent || repr.layout == Layout::C),
    {
        StructMeta {
            crate_name: crate_name.clone(),
            fields: self.unskipped_targets(trait_impl),
            eligible: repr.is_zero_copy_eligible(),
        }
    }

    /// The fields with the members that they are accessed as in a struct.
    pub fn struct_members_iter(&self) -> (members: Vec<(&Field, Member)>)
        requires
            can_count(self.fields@),
        ensures
            members@.len() == self.fields@.len(),
            forall|i: int|
                0 <= i < members@.len() ==> *(#[trigger] members@[i]).0 == self.fields@[i]
                    && match (members@[i].1, self.fields@[i].ident) {
                    (Member::Named(name), Some(ident)) => name@ == ident@,
                    (Member::Unnamed(at), None) => at == i,
                    _ => false,
                },
    {
        let mut members: Vec<(&Field, Member)> = Vec::new();
        let mut i: usize = 0;
        while i < self.fields.len()
            invariant
                i <= self.fields.len(),
                can_count(self.fields@),
                members@.len() == i,
                forall|k: int|
                    0 <= k < i ==> *(#[trigger] members@[k]).0 == self.fields@[k] && match (
                        members@[k].1,
                        self.fields@[k].ident,
                    ) {
                        (Member::Named(name), Some(ident)) => name@ == ident@,
                        (Member::Unnamed(at), None) => at == k,
                        _ => false,
                    },
            decreases self.fields.len() - i,
        {
            let field = &self.fields[i];
            members.push((field, field.struct_member_ident(i)));
            i += 1;
        }
        members
    }

    /// The fields with the names that they are bound by in a variant.
    pub fn enum_members_iter(&self, prefix: Option<&str>) -> (members: Vec<(&Field, String)>)
        ensures
            members@.len() == self.fields@.len(),
            forall|i: int|
                0 <= i < members@.len() ==> *(#[trigger] members@[i]).0 == self.fields@[i]
                    && members@[i].1@ == member_name(self.fields@, prefix_text(prefix), i),
    {
        let mut members: Vec<(&Field, String)> = Vec::new();
        let mut anonymous: usize = 0;
        let mut i: usize = 0;
        while i < self.fields.len()
            invariant
                i <= self.fields.len(),
                anonymous <= i,
                anonymous == unnamed(self.fields@.take(i as int)),
                members@.len() == i,
                forall|k: int|
                    0 <= k < i ==> *(#[trigger] members@[k]).0 == self.fields@[k]
                        && members@[k].1@ == member_name(self.fields@, prefix_text(prefix), k),
            decreases self.fields.len() - i,
        {
            assert(self.fields@.take(i + 1).drop_last() =~= self.fields@.take(i as int));
            let field = &self.fields[i];
            if let Some(ident) = &field.ident {
                members.push((field, ident.clone()));
            } else {
                members.push((field, anon_ident(prefix, anonymous)));
                anonymous += 1;
            }
            i += 1;
        }
        members
    }

    /// The fields that are not skipped.
    pub fn unskipped_iter(&self) -> (fields: Vec<&Field>)
        ensures
            referents(fields@) == unskipped(self.fields@),
    {
        let mut fields: Vec<&Field> = Vec::new();
        let mut i: usize = 0;
        assert(referents(fields@) =~= unskipped(self.fields@.take(0)));
        while i < self.fields.len()
            invariant
                i <= self.fields.len(),
                referents(fields@) == unskipped(self.fields@.take(i as int)),
            decreases self.fields.len() - i,
        {
            assert(self.fields@.take(i + 1).drop_last() =~= self.fields@.take(i as int));
            if self.fields[i].skip.is_none() {
                let ghost before = fields@;
                fields.push(&self.fields[i]);
                assert(referents(fields@) =~= referents(before).push(self.fields@[i as int]));
            }
            i += 1;
        }
        assert(self.fields@.take(i as int) =~= self.fields@);
        fields
    }

    /// The fields whose type holds a lifetime.
    pub fn fields_with_lifetime_iter(&self) -> (fields: Vec<&Field>)
        ensures
            referents(fields@) == with_lifetime(self.fields@),
    {
        let mut fields: Vec<&Field> = Vec::new();
        let mut i: usize = 0;
        assert(referents(fields@) =~= with_lifetime(self.fields@.take(0)));
        while i < self.fields.len()
            invariant
                i <= self.fields.len(),
                referents(fields@) == with_lifetime(self.fields@.take(i as int)),
            decreases self.fields.len() - i,
        {
            assert(self.fields@.take(i + 1).drop_last() =~= self.fields@.take(i as int));
            if self.fields[i].has_lifetime() {
                let ghost before = fields@;
                fields.push(&self.fields[i]);
                assert(referents(fields@) =~= referents(before).push(self.fields@[i as int]));
            }
            i += 1;
        }
        assert(self.fields@.take(i as int) =~= self.fields@);
        fields
    }
}

impl StructMeta {
    /// What the generated code computes, where `metas` is the metadata of the fields and
    /// `size_in_memory` the size of the struct.
    pub fn evaluate(&self, metas: &Vec<TypeMeta>, size_in_memory: usize) -> (meta: TypeMeta)
        requires
            metas@.len() == self.fields@.len(),
            all_static(metas@) ==> total_size(metas@) <= usize::MAX,
        ensures
            meta == struct_meta(metas@, size_in_memory, self.eligible),
    {
        join_struct(metas, size_in_memory, self.eligible)
    }
}

/// The names by which the fields of a tuple variant are bound are all different.
pub proof fn tuple_members_are_distinct(fields: Seq<Field>, prefix: Seq<char>, i: int, j: int)
    requires
        0 <= i < j < fields.len(),
        fields[i].ident is None,
        fields[j].ident is None,
    ensures
        member_name(fields, prefix, i) != member_name(fields, prefix, j),
{
    lemma_unnamed_grows(fields, i, j);
    if member_name(fields, prefix, i) == member_name(fields, prefix, j) {
        anon_names_are_distinct(
            prefix,
            unnamed(fields.take(i)),
            unnamed(fields.take(j)),
        );
    }
}

proof fn lemma_unnamed_grows(fields: Seq<Field>, i: int, j: int)
    requires
        0 <= i < j <= fields.len(),
        fields[i].ident is None,
    ensures
        unnamed(fields.take(i)) < unnamed(fields.take(j)),
    decreases j,
{
    assert(fields.take(j).drop_last() =~= fields.take(j - 1));
    if i + 1 < j {
        lemma_unnamed_grows(fields, i, j - 1);
    }
}

/// What is left of fields are those that are not skipped, each of them and in order.
pub proof fn only_skipped_fields_are_left_out(first: Seq<Field>, second: Seq<Field>, field: Field)
    ensures
        unskipped(first + second) == unskipped(first) + unskipped(second),
        field.skip is None ==> unskipped(seq![field]) == seq![field],
        field.skip is Some ==> unskipped(seq![field]) == Seq::<Field>::empty(),
        unskipped(seq![]) == Seq::<Field>::empty(),
    decreases second.len(),
{
    assert(seq![field].drop_last() =~= seq![]);
    reveal_with_fuel(unskipped, 2);
    assert(unskipped(seq![]) =~= seq![]);
    if field.skip is None {
        assert(unskipped(seq![field]) =~= seq![field]);
    }
    if second.len() == 0 {
        assert(first + second =~= first);
        assert(unskipped(first) + unskipped(second) =~= unskipped(first));
    } else {
        only_skipped_fields_are_left_out(first, second.drop_last(), field);
        assert((first + second).drop_last() =~= first + second.drop_last());
        assert((first + second).last() == second.last());
        assert(unskipped(first + second) =~= unskipped(first) + unskipped(second));
    }
}

/// The fields with a lifetime are those in whose type a lifetime stands at any depth, each of
/// them and in order.
pub proof fn fields_that_hold_a_lifetime_are_found(
    first: Seq<Field>,
    second: Seq<Field>,
    field: Field,
)
    ensures
        with_lifetime(first + second) == with_lifetime(first) + with_lifetime(second),
        with_lifetime(seq![field]) == if exists|name: Seq<char>|
            stands_in(Form::Lifetime(name), field.ty@) {
            seq![field]
        } else {
            seq![]
        },
        with_lifetime(seq![]) == Seq::<Field>::empty(),
    decreases second.len(),
{
    assert(seq![field].drop_last() =~= seq![]);
    reveal_with_fuel(with_lifetime, 2);
    assert(with_lifetime(seq![]) =~= seq![]);
    let own = lifetimes_of(field.ty@);
    if own.len() > 0 {
        assert(with_lifetime(seq![field]) =~= seq![field]);
        assert(own.contains(own[0]));
        lifetimes_are_found_at_any_depth(field.ty@, own[0]);
        assert(stands_in(Form::Lifetime(own[0]), field.ty@));
    } else {
        assert forall|name: Seq<char>| !stands_in(Form::Lifetime(name), field.ty@) by {
            lifetimes_are_found_at_any_depth(field.ty@, name);
        }
    }
    if second.len() == 0 {
        assert(first + second =~= first);
        assert(with_lifetime(first) + with_lifetime(second) =~= with_lifetime(first));
    } else {
        fields_that_hold_a_lifetime_are_found(first, second.drop_last(), field);
        assert((first + second).drop_last() =~= first + second.drop_last());
        assert((first + second).last() == second.last());
        assert(with_lifetime(first + second) =~= with_lifetime(first) + with_lifetime(second));
    }
}

/// A field with a name is bound by it. The fields without one are bound by the anonymous names
/// in order: the first by the first, and each by the one behind that of the field without a name
/// before it.
pub proof fn members_are_named_in_order(fields: Seq<Field>, prefix: Seq<char>, i: int, j: int)
    requires
        0 <= i < fields.len(),
    ensures
        fields[i].ident matches Some(ident) ==> member_name(fields, prefix, i) == ident@,
        fields[i].ident is None && (forall|k: int|
            0 <= k < i ==> (#[trigger] fields[k]).ident is Some) ==> member_name(fields, prefix, i)
            == anon_name(prefix, 0),
        forall|n: nat|
            i < j < fields.len() && fields[i].ident is None && fields[j].ident is None && (forall|
                k: int,
            |
                i < k < j ==> (#[trigger] fields[k]).ident is Some) && member_name(
                fields,
                prefix,
                i,
            ) == #[trigger] anon_name(prefix, n) ==> member_name(fields, prefix, j) == anon_name(
                prefix,
                n + 1,
            ),
{
    if forall|k: int| 0 <= k < i ==> (#[trigger] fields[k]).ident is Some {
        lemma_none_unnamed(fields, 0, i);
        assert(fields.take(0) =~= seq![]);
    }
    assert forall|n: nat|
        i < j < fields.len() && fields[i].ident is None && fields[j].ident is None && (forall|k: int|
            i < k < j ==> (#[trigger] fields[k]).ident is Some) && member_name(fields, prefix, i)
            == #[trigger] anon_name(prefix, n) implies member_name(fields, prefix, j) == anon_name(
        prefix,
        n + 1,
    ) by {
        anon_names_are_distinct(prefix, unnamed(fields.take(i)), n);
        assert(fields.take(i + 1).drop_last() =~= fields.take(i));
        lemma_none_unnamed(fields, i + 1, j);
    }
}

/// Fields with names do not count.
proof fn lemma_none_unnamed(fields: Seq<Field>, i: int, j: int)
    requires
        0 <= i <= j <= fields.len(),
        forall|k: int| i <= k < j ==> (#[trigger] fields[k]).ident is Some,
    ensures
        unnamed(fields.take(i)) == unnamed(fields.take(j)),
    decreases j,
{
    if i < j {
        lemma_none_unnamed(fields, i, j - 1);
        assert(fields.take(j).drop_last() =~= fields.take(j - 1));
        assert(fields[j - 1].ident is Some);
    }
}

/// The targets of fields are in the order of the fields, each with its own trait.
pub proof fn targets_are_those_of_the_fields(fields: Seq<Field>, tr: TraitImpl, i: int)
    requires
        0 <= i < fields.len(),
    ensures
        qualified_all(fields, tr).len() == fields.len(),
        qualified_all(fields, tr)[i] == fields[i].qualified(tr),
{
}

/// The metadata of a skipped field is that of no bytes, and that of any other field is that of
/// its own target.
pub proof fn metadata_is_that_of_the_field(
    meta: FieldMeta,
    field: Field,
    tr: TraitImpl,
    crate_name: Form,
)
    requires
        is_meta_of_field(meta, field, tr, crate_name),
    ensures
        field.skip is Some <==> meta is Skipped,
        meta matches FieldMeta::Skipped(path) ==> path@ == crate_name,
        meta matches FieldMeta::Of(target) ==> target.target@ == field.qualified(tr).0
            && target.qualifier@ == field.qualified(tr).1,
{
}

/// References lead to the fields, each of them and in order, and the views of targets are those
/// of each of them.
pub proof fn references_lead_to_the_fields(
    fields: Seq<&Field>,
    targets: Seq<Qualified>,
    i: int,
)
    ensures
        referents(fields).len() == fields.len(),
        0 <= i < fields.len() ==> referents(fields)[i] == *fields[i],
        qualified_views(targets).len() == targets.len(),
        0 <= i < targets.len() ==> qualified_views(targets)[i] == (
            targets[i].target@,
            targets[i].qualifier@,
        ),
{
}

} // verus!
