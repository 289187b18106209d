//! The fields of a declaration, and the traits that they are read and written by.

use crate::infer::{
    candidates, contains_infer, inferable, inferred, lemma_candidates_known,
    nothing_is_left_to_infer, nothing_to_infer_changes_nothing,
};
use crate::lifetimes::{
    borrows_only, left_names, lifetimes_of, replaced, replaced_borrows_only_what_is_left,
    replacement_keeps_static_and_excluded,
};
use crate::syntax::{
    copy_nodes, forms, lemma_forms_push, opt_form, Expr, Form, Kind, Path, Syntax, Type,
};
use crate::text::{decimal, texts, to_decimal};
use vstd::prelude::*;

verus! {

/// How a field that is neither read nor written is initialized.
#[derive(Debug, PartialEq, Eq)]
pub enum SkipMode {
    /// With `Default::default()`.
    Default,
    /// With the value of the expression.
    DefaultVal(Expr),
}

/// A segment without arguments.
pub open spec fn plain_segment(name: Seq<char>) -> Form {
    Form::Tree(Kind::Segment, seq![Form::Ident(name)])
}

/// A segment with arguments in angle brackets.
pub open spec fn segment_with(name: Seq<char>, args: Seq<Form>) -> Form {
    Form::Tree(
        Kind::Segment,
        seq![Form::Ident(name), Form::Tree(Kind::AngleBracketed { turbofish: false }, args)],
    )
}

/// A path with one more segment.
pub open spec fn extended(path: Form, segment: Form) -> Form {
    match path {
        Form::Tree(kind, segments) => Form::Tree(kind, segments.push(segment)),
        _ => path,
    }
}

/// The type that a plain name stands for.
pub open spec fn named_type(name: Seq<char>) -> Form {
    Form::Tree(
        Kind::PathType,
        seq![Form::Tree(Kind::Path { leading_colon: false }, seq![plain_segment(name)])],
    )
}

/// The expression that initializes a skipped field.
pub open spec fn default_expr(skip: SkipMode) -> Form {
    match skip {
        SkipMode::Default => Form::Tree(
            Kind::Expression,
            seq![
                Form::Tree(
                    Kind::Path { leading_colon: false },
                    seq![plain_segment("Default"@), plain_segment("default"@)],
                ),
                Form::Text("()"@),
            ],
        ),
        SkipMode::DefaultVal(expr) => expr@,
    }
}

/// A segment without arguments.
pub(crate) fn new_segment(name: &str) -> (segment: Syntax)
    ensures
        segment@ == plain_segment(name@),
{
    let mut parts: Vec<Syntax> = Vec::new();
    parts.push(Syntax::Ident(name.to_owned()));
    let segment = Syntax::Tree(Kind::Segment, parts);
    assert(forms(parts@) =~= seq![Form::Ident(name@)]);
    segment
}

/// A segment with arguments in angle brackets.
pub(crate) fn new_segment_with(name: &str, args: Vec<Syntax>) -> (segment: Syntax)
    ensures
        segment@ == segment_with(name@, forms(args@)),
{
    let ghost all = forms(args@);
    let mut parts: Vec<Syntax> = Vec::new();
    parts.push(Syntax::Ident(name.to_owned()));
    parts.push(Syntax::Tree(Kind::AngleBracketed { turbofish: false }, args));
    assert(forms(parts@) =~= seq![
        Form::Ident(name@),
        Form::Tree(Kind::AngleBracketed { turbofish: false }, all),
    ]);
    Syntax::Tree(Kind::Segment, parts)
}

/// A node with one child.
pub(crate) fn new_wrapper(kind: Kind, child: Syntax) -> (node: Syntax)
    ensures
        node@ == Form::Tree(kind, seq![child@]),
{
    let ghost form = child@;
    let mut children: Vec<Syntax> = Vec::new();
    children.push(child);
    assert(forms(children@) =~= seq![form]);
    Syntax::Tree(kind, children)
}

/// The type that a plain name stands for.
pub(crate) fn new_named_type(name: &str) -> (ty: Syntax)
    ensures
        ty@ == named_type(name@),
{
    new_wrapper(
        Kind::PathType,
        new_wrapper(Kind::Path { leading_colon: false }, new_segment(name)),
    )
}

impl SkipMode {
    /// The expression that initializes the field.
    pub fn default_val_token_stream(&self) -> (expr: Expr)
        ensures
            expr@ == default_expr(*self),
    {
        match self {
            SkipMode::Default => {
                let mut segments: Vec<Syntax> = Vec::new();
                segments.push(new_segment("Default"));
                segments.push(new_segment("default"));
                assert(forms(segments@) =~= seq![
                    plain_segment("Default"@),
                    plain_segment("default"@),
                ]);
                let path = Syntax::Tree(Kind::Path { leading_colon: false }, segments);
                let ghost path_form = path@;
                let mut parts: Vec<Syntax> = Vec::new();
                parts.push(path);
                parts.push(Syntax::Text("()".to_owned()));
                assert(forms(parts@) =~= seq![path_form, Form::Text("()"@)]);
                Syntax::Tree(Kind::Expression, parts)
            },
            SkipMode::DefaultVal(val) => val.clone(),
        }
    }
}

/// The trait that is implemented.
#[derive(Debug, Clone, Copy, PartialEq, Eq, Structural)]
pub enum TraitImpl {
    SchemaRead,
    SchemaWrite,
}

/// The name of the trait.
pub open spec fn trait_name(tr: TraitImpl) -> Seq<char> {
    match tr {
        TraitImpl::SchemaRead => "SchemaRead"@,
        TraitImpl::SchemaWrite => "SchemaWrite"@,
    }
}

impl TraitImpl {
    /// The name of the trait.
    pub fn name(&self) -> (name: String)
        ensures
            name@ == trait_name(*self),
    {
        match self {
            TraitImpl::SchemaRead => "SchemaRead".to_owned(),
            TraitImpl::SchemaWrite => "SchemaWrite".to_owned(),
        }
    }
}

/// A field of a declaration.
#[derive(Debug, PartialEq, Eq)]
pub struct Field {
    pub ident: Option<String>,
    pub ty: Type,
    /// The type whose implementation is used in place of that of `ty`. It may hold `_`.
    pub with: Option<Type>,
    /// How the field is initialized where it is neither read nor written.
    pub skip: Option<SkipMode>,
    /// Whether the field is read with the context of the declaration.
    pub context_flag: bool,
    /// The type of that context, once it is known.
    pub context: Option<Type>,
    /// The path to the crate of the traits, once it is known.
    pub crate_name: Option<Path>,
    /// The lifetimes of the context, once it is known.
    pub context_lifetimes: Vec<String>,
}

/// How a member of a struct is accessed.
#[derive(Debug, PartialEq, Eq)]
pub enum Member {
    Named(String),
    Unnamed(u32),
}

/// A type as an implementor of a trait: `<target as qualifier>`.
#[derive(Debug, PartialEq, Eq)]
pub struct Qualified {
    pub target: Type,
    /// The trait, a node of kind `Path`.
    pub qualifier: Syntax,
}

impl View for Qualified {
    type V = (Form, Form);

    open spec fn view(&self) -> (Form, Form) {
        (self.target@, self.qualifier@)
    }
}

/// The generic arguments of the trait: the configuration, and for reading the lifetime of the
/// input before it and the context behind it.
pub open spec fn trait_args(tr: TraitImpl, context: Option<Form>) -> Seq<Form> {
    let config = Form::Tree(Kind::TypeArgument, seq![named_type("__WincodeConfig"@)]);
    match tr {
        TraitImpl::SchemaRead => {
            let de = Form::Tree(Kind::LifetimeArgument, seq![Form::Lifetime("de"@)]);
            match context {
                Some(ctx) => seq![de, config, Form::Tree(Kind::TypeArgument, seq![ctx])],
                None => seq![de, config],
            }
        },
        TraitImpl::SchemaWrite => seq![config],
    }
}

/// The name of the trait that is used, which is another one where a context is read with.
pub open spec fn used_trait(tr: TraitImpl, context: Option<Form>) -> Seq<char> {
    match (tr, context) {
        (TraitImpl::SchemaRead, Some(_)) => "SchemaReadContext"@,
        (TraitImpl::SchemaRead, None) => "SchemaRead"@,
        (TraitImpl::SchemaWrite, _) => "SchemaWrite"@,
    }
}

/// The trait that a field is read or written by.
pub open spec fn qualifier_form(
    crate_name: Form,
    tr: TraitImpl,
    context: Option<Form>,
) -> Form {
    extended(crate_name, segment_with(used_trait(tr, context), trait_args(tr, context)))
}

/// `name = ty`.
pub open spec fn binding(name: Seq<char>, ty: Form) -> Form {
    Form::Tree(Kind::AssocType, seq![Form::Ident(name), ty])
}

impl Field {
    /// The type whose implementation is used.
    pub open spec fn target_of(self) -> Form {
        match self.with {
            Some(with) => with@,
            None => self.ty@,
        }
    }

    /// Whether every `_` of the target can be inferred from the type of the field.
    pub open spec fn resolvable(self) -> bool {
        inferable(self.target_of(), self.ty@)
    }

    /// The target with every `_` inferred.
    pub open spec fn resolved(self) -> Form {
        inferred(self.target_of(), self.ty@)
    }

    /// The target as it stands in the generated code. What may borrow from the input is given
    /// the lifetime of the input.
    pub open spec fn full_target(self, tr: TraitImpl) -> Form {
        match tr {
            TraitImpl::SchemaRead => replaced(
                self.resolved(),
                "de"@,
                texts(self.context_lifetimes@),
            ),
            TraitImpl::SchemaWrite => self.resolved(),
        }
    }

    /// The trait, with the type that is read into or written from.
    pub open spec fn constraint_form(self, tr: TraitImpl) -> Form {
        let context = opt_form(self.context);
        let bound = match tr {
            TraitImpl::SchemaRead => binding(
                "Dst"@,
                replaced(self.ty@, "de"@, texts(self.context_lifetimes@)),
            ),
            TraitImpl::SchemaWrite => binding("Src"@, self.ty@),
        };
        extended(
            self.crate_name->Some_0@,
            segment_with(used_trait(tr, context), trait_args(tr, context).push(bound)),
        )
    }

    /// The type whose implementation is used: that of the `with` attribute where there is one,
    /// else the type of the field.
    pub fn target(&self) -> (target: &Type)
        ensures
            target@ == self.target_of(),
    {
        if let Some(with) = &self.with {
            with
        } else {
            &self.ty
        }
    }

    /// The target with every `_` inferred from the type of the field; `None` where that cannot
    /// be.
    pub fn try_target_resolved(&self) -> (target: Option<Type>)
        ensures
            target is Some <==> self.resolvable(),
            target matches Some(ty) ==> ty@ == self.resolved(),
    {
        self.target().try_with_infer(&self.ty)
    }

    /// The target with every `_` inferred from the type of the field.
    pub fn target_resolved(&self) -> (target: Type)
        requires
            self.resolvable(),
        ensures
            target@ == self.resolved(),
    {
        self.target().with_infer(&self.ty)
    }

    /// How the field is accessed as a member of a struct: by its name where it has one, else
    /// by its index.
    pub fn struct_member_ident(&self, index: usize) -> (member: Member)
        requires
            self.ident is None ==> index < u32::MAX,
        ensures
            match (member, self.ident) {
                (Member::Named(name), Some(ident)) => name@ == ident@,
                (Member::Unnamed(at), None) => at == index,
                _ => false,
            },
    {
        if let Some(ident) = &self.ident {
            Member::Named(ident.clone())
        } else {
            Member::Unnamed(index as u32)
        }
    }

    /// The text by which the field is accessed as a member of a struct.
    pub fn struct_member_ident_to_string(&self, index: usize) -> (text: String)
        ensures
            text@ == match self.ident {
                Some(ident) => ident@,
                None => decimal(index as nat),
            },
    {
        if let Some(ident) = &self.ident {
            ident.clone()
        } else {
            to_decimal(index as u128)
        }
    }

    /// Whether the type of the field holds a lifetime.
    pub fn has_lifetime(&self) -> (found: bool)
        ensures
            found == (lifetimes_of(self.ty@).len() > 0),
    {
        self.ty.has_lifetime()
    }

    /// The bound on this field: the trait, with the very type that is read into or written
    /// from.
    ///
    /// The lifetimes of the context stay tied to the context; others that are read may borrow
    /// from the input.
    pub fn as_constraint(&self, tr: TraitImpl) -> (constraint: Syntax)
        requires
            self.crate_name is Some,
        ensures
            constraint@ == self.constraint_form(tr),
    {
        let crate_name = self.crate_name.as_ref().unwrap();
        let mut args = new_trait_args(tr, &self.context);
        let bound = match tr {
            TraitImpl::SchemaRead => {
                let ty = self.ty.with_lifetime_excluding("de", &self.context_lifetimes);
                new_binding("Dst", ty)
            },
            TraitImpl::SchemaWrite => new_binding("Src", self.ty.clone()),
        };
        proof {
            lemma_forms_push(args@, bound);
        }
        args.push(bound);
        new_trait(crate_name, tr, &self.context, args)
    }

    /// The trait that the target of this field is read or written by.
    ///
    /// A field with a context is read by `SchemaReadContext`. Other fields are read, and all
    /// are written, without one.
    pub fn qualifier(&self, tr: TraitImpl) -> (qualifier: Syntax)
        requires
            self.crate_name is Some,
        ensures
            qualifier@ == qualifier_form(
                self.crate_name->Some_0@,
                tr,
                opt_form(self.context),
            ),
    {
        let crate_name = self.crate_name.as_ref().unwrap();
        let args = new_trait_args(tr, &self.context);
        new_trait(crate_name, tr, &self.context, args)
    }

    /// `<Target as Trait>`, with `_` inferred and the lifetimes of what is read replaced.
    pub fn target_fully_qualified(&self, tr: TraitImpl) -> (qualified: Qualified)
        requires
            self.crate_name is Some,
            self.resolvable(),
        ensures
            qualified@ == self.qualified(tr),
    {
        let target = match tr {
            TraitImpl::SchemaRead => self.target_resolved().with_lifetime_excluding(
                "de",
                &self.context_lifetimes,
            ),
            TraitImpl::SchemaWrite => self.target_resolved(),
        };
        let qualifier = self.qualifier(tr);
        Qualified { target, qualifier }
    }

    /// `<Target as Trait>`.
    pub open spec fn qualified(self, tr: TraitImpl) -> (Form, Form) {
        (
            self.full_target(tr),
            qualifier_form(self.crate_name->Some_0@, tr, opt_form(self.context)),
        )
    }
}

/// `name = ty`.
fn new_binding(name: &str, ty: Syntax) -> (node: Syntax)
    ensures
        node@ == binding(name@, ty@),
{
    let ghost form = ty@;
    let mut parts: Vec<Syntax> = Vec::new();
    parts.push(Syntax::Ident(name.to_owned()));
    parts.push(ty);
    assert(forms(parts@) =~= seq![Form::Ident(name@), form]);
    Syntax::Tree(Kind::AssocType, parts)
}

/// The generic arguments of the trait.
pub(crate) fn new_trait_args(tr: TraitImpl, context: &Option<Syntax>) -> (args: Vec<Syntax>)
    ensures
        forms(args@) == trait_args(tr, opt_form(*context)),
{
    let mut args: Vec<Syntax> = Vec::new();
    let config = new_wrapper(Kind::TypeArgument, new_named_type("__WincodeConfig"));
    match tr {
        TraitImpl::SchemaRead => {
            args.push(new_wrapper(Kind::LifetimeArgument, Syntax::Lifetime("de".to_owned())));
            args.push(config);
            if let Some(ctx) = context {
                args.push(new_wrapper(Kind::TypeArgument, ctx.clone()));
            }
        },
        TraitImpl::SchemaWrite => {
            args.push(config);
        },
    }
    assert(forms(args@) =~= trait_args(tr, opt_form(*context)));
    args
}

/// The trait with the given generic arguments.
fn new_trait(crate_name: &Path, tr: TraitImpl, context: &Option<Syntax>, args: Vec<Syntax>) -> (
    path: Syntax)
    ensures
        path@ == extended(
            crate_name@,
            segment_with(used_trait(tr, opt_form(*context)), forms(args@)),
        ),
{
    let name: &str = match tr {
        TraitImpl::SchemaRead => if context.is_some() {
            "SchemaReadContext"
        } else {
            "SchemaRead"
        },
        TraitImpl::SchemaWrite => "SchemaWrite",
    };
    let segment = new_segment_with(name, args);
    let mut segments = copy_nodes(&crate_name.segments);
    proof {
        lemma_forms_push(segments@, segment);
    }
    segments.push(segment);
    Syntax::Tree(Kind::Path { leading_colon: crate_name.leading_colon }, segments)
}

/// The trait that a type is read or written by without a context.
pub(crate) fn new_qualifier(crate_name: &Path, tr: TraitImpl) -> (qualifier: Syntax)
    ensures
        qualifier@ == qualifier_form(crate_name@, tr, None),
{
    let none: Option<Syntax> = None;
    let args = new_trait_args(tr, &none);
    new_trait(crate_name, tr, &none, args)
}

/// What is read as a field borrows from nothing but the input, the context and `'static`: both
/// the type that is read into and the type whose implementation is used.
pub proof fn read_fields_borrow_from_input_or_context(field: Field)
    ensures
        borrows_only(
            replaced(field.ty@, "de"@, texts(field.context_lifetimes@)),
            left_names("de"@, texts(field.context_lifetimes@)),
        ),
        borrows_only(
            field.full_target(TraitImpl::SchemaRead),
            left_names("de"@, texts(field.context_lifetimes@)),
        ),
{
    replaced_borrows_only_what_is_left(field.ty@, "de"@, texts(field.context_lifetimes@));
    replaced_borrows_only_what_is_left(field.resolved(), "de"@, texts(field.context_lifetimes@));
}

/// A field whose target holds no `_` can be resolved, to its target.
pub proof fn targets_without_inference_are_kept(field: Field)
    requires
        !contains_infer(field.target_of()),
    ensures
        field.resolvable(),
        field.resolved() == field.target_of(),
{
    nothing_to_infer_changes_nothing(field.target_of(), candidates(field.ty@));
}

/// A resolved target holds no `_`, as the type of a field holds none.
pub proof fn resolved_targets_leave_nothing_to_infer(field: Field)
    requires
        field.resolvable(),
        !contains_infer(field.ty@),
    ensures
        !contains_infer(field.resolved()),
{
    lemma_candidates_known(field.ty@);
    nothing_is_left_to_infer(field.target_of(), field.ty@);
}

/// A path to a trait: the path to its crate, and behind that the name of the trait with its
/// arguments in angle brackets.
pub open spec fn trait_path(
    kind: Kind,
    segments: Seq<Form>,
    name: Seq<char>,
    args: Seq<Form>,
) -> Form {
    Form::Tree(
        kind,
        segments + seq![
            Form::Tree(
                Kind::Segment,
                seq![Form::Ident(name), Form::Tree(Kind::AngleBracketed { turbofish: false }, args)],
            ),
        ],
    )
}

/// `__WincodeConfig` as a type argument.
pub open spec fn config_argument() -> Form {
    Form::Tree(
        Kind::TypeArgument,
        seq![
            Form::Tree(
                Kind::PathType,
                seq![
                    Form::Tree(
                        Kind::Path { leading_colon: false },
                        seq![Form::Tree(Kind::Segment, seq![Form::Ident("__WincodeConfig"@)])],
                    ),
                ],
            ),
        ],
    )
}

/// `'de` as an argument.
pub open spec fn input_argument() -> Form {
    Form::Tree(Kind::LifetimeArgument, seq![Form::Lifetime("de"@)])
}

/// Whatever the context, a field is written by `SchemaWrite<__WincodeConfig>`. Without a context
/// it is read by `SchemaRead<'de, __WincodeConfig>`, and with one by
/// `SchemaReadContext<'de, __WincodeConfig, Context>`.
pub proof fn traits_are_those_of_the_direction(
    kind: Kind,
    segments: Seq<Form>,
    context: Option<Form>,
    ty: Form,
)
    ensures
        ({
            let crate_name = Form::Tree(kind, segments);
            &&& qualifier_form(crate_name, TraitImpl::SchemaWrite, context) == trait_path(
                kind,
                segments,
                "SchemaWrite"@,
                seq![config_argument()],
            )
            &&& qualifier_form(crate_name, TraitImpl::SchemaRead, None) == trait_path(
                kind,
                segments,
                "SchemaRead"@,
                seq![input_argument(), config_argument()],
            )
            &&& qualifier_form(crate_name, TraitImpl::SchemaRead, Some(ty)) == trait_path(
                kind,
                segments,
                "SchemaReadContext"@,
                seq![
                    input_argument(),
                    config_argument(),
                    Form::Tree(Kind::TypeArgument, seq![ty]),
                ],
            )
        }),
        trait_name(TraitImpl::SchemaRead) == "SchemaRead"@,
        trait_name(TraitImpl::SchemaWrite) == "SchemaWrite"@,
{
    let crate_name = Form::Tree(kind, segments);
    let write = segment_with("SchemaWrite"@, seq![config_argument()]);
    assert(segments.push(write) =~= segments + seq![write]);
    let read = segment_with("SchemaRead"@, seq![input_argument(), config_argument()]);
    assert(segments.push(read) =~= segments + seq![read]);
    let within = segment_with(
        "SchemaReadContext"@,
        seq![input_argument(), config_argument(), Form::Tree(Kind::TypeArgument, seq![ty])],
    );
    assert(segments.push(within) =~= segments + seq![within]);
}

/// The bound on a field is the trait that it is read or written by, with one more argument:
/// `Src = Type` for writing, and for reading `Dst = Type`, where the type borrows from the input
/// what it does not borrow from the context.
pub proof fn bounds_name_the_type_of_the_field(field: Field, tr: TraitImpl)
    requires
        field.crate_name is Some,
    ensures
        ({
            let path = field.crate_name->Some_0;
            let kind = Kind::Path { leading_colon: path.leading_colon };
            let segments = forms(path.segments@);
            let name = match (tr, field.context) {
                (TraitImpl::SchemaWrite, _) => "SchemaWrite"@,
                (TraitImpl::SchemaRead, None) => "SchemaRead"@,
                (TraitImpl::SchemaRead, Some(_)) => "SchemaReadContext"@,
            };
            let args = match (tr, field.context) {
                (TraitImpl::SchemaWrite, _) => seq![config_argument()],
                (TraitImpl::SchemaRead, None) => seq![input_argument(), config_argument()],
                (TraitImpl::SchemaRead, Some(ty)) => seq![
                    input_argument(),
                    config_argument(),
                    Form::Tree(Kind::TypeArgument, seq![ty@]),
                ],
            };
            let bound = match tr {
                TraitImpl::SchemaWrite => Form::Tree(
                    Kind::AssocType,
                    seq![Form::Ident("Src"@), field.ty@],
                ),
                TraitImpl::SchemaRead => Form::Tree(
                    Kind::AssocType,
                    seq![
                        Form::Ident("Dst"@),
                        replaced(field.ty@, "de"@, texts(field.context_lifetimes@)),
                    ],
                ),
            };
            &&& field.qualified(tr).1 == trait_path(kind, segments, name, args)
            &&& field.constraint_form(tr) == trait_path(kind, segments, name, args + seq![bound])
        }),
{
    let path = field.crate_name->Some_0;
    let kind = Kind::Path { leading_colon: path.leading_colon };
    let segments = forms(path.segments@);
    assert(path@ == Form::Tree(kind, segments));
    let context = opt_form(field.context);
    let ty = match context {
        Some(ty) => ty,
        None => path@,
    };
    traits_are_those_of_the_direction(kind, segments, context, ty);
    let bound = match tr {
        TraitImpl::SchemaRead => binding(
            "Dst"@,
            replaced(field.ty@, "de"@, texts(field.context_lifetimes@)),
        ),
        TraitImpl::SchemaWrite => binding("Src"@, field.ty@),
    };
    let args = trait_args(tr, context);
    assert(args.push(bound) =~= args + seq![bound]);
    let last = segment_with(used_trait(tr, context), args.push(bound));
    assert(segments.push(last) =~= segments + seq![last]);
}

/// The implementation that is used is that of the type in the `with` attribute where there is
/// one, else that of the type of the field. For writing it is used as it is resolved; for
/// reading it borrows from the input what it does not borrow from the context.
pub proof fn targets_are_those_of_the_attribute(field: Field)
    ensures
        field.with matches Some(with) ==> field.target_of() == with@,
        field.with is None ==> field.target_of() == field.ty@,
        field.with is None && !contains_infer(field.ty@) ==> field.resolvable() && field.resolved()
            == field.ty@,
        field.resolvable() <==> inferable(field.target_of(), field.ty@),
        field.resolved() == inferred(field.target_of(), field.ty@),
        field.qualified(TraitImpl::SchemaWrite).0 == field.resolved(),
        field.qualified(TraitImpl::SchemaRead).0 == replaced(
            field.resolved(),
            "de"@,
            texts(field.context_lifetimes@),
        ),
{
    if field.with is None && !contains_infer(field.ty@) {
        targets_without_inference_are_kept(field);
    }
}

/// To read and to write a field that borrows nothing but from the context and `'static`, and
/// leaves no lifetime out, the same implementation is used.
pub proof fn reading_and_writing_use_one_implementation(field: Field)
    requires
        borrows_only(
            field.resolved(),
            |name: Seq<char>| name == "static"@ || texts(field.context_lifetimes@).contains(name),
        ),
    ensures
        field.full_target(TraitImpl::SchemaRead) == field.full_target(TraitImpl::SchemaWrite),
{
    replacement_keeps_static_and_excluded(
        field.resolved(),
        "de"@,
        texts(field.context_lifetimes@),
    );
}

/// A skipped field is initialized with the given expression, or else with `Default::default()`.
pub proof fn skipped_fields_are_initialized_as_asked(expr: Expr)
    ensures
        default_expr(SkipMode::DefaultVal(expr)) == expr@,
        default_expr(SkipMode::Default) == Form::Tree(
            Kind::Expression,
            seq![
                Form::Tree(
                    Kind::Path { leading_colon: false },
                    seq![
                        Form::Tree(Kind::Segment, seq![Form::Ident("Default"@)]),
                        Form::Tree(Kind::Segment, seq![Form::Ident("default"@)]),
                    ],
                ),
                Form::Text("()"@),
            ],
        ),
{
}

} // verus!
