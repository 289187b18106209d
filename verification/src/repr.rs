//! The `#[repr]` attributes of a declaration.

use crate::text::opt_text;
use vstd::prelude::*;

verus! {

/// How the fields of a struct are laid out in memory.
#[derive(Debug, Clone, Copy, PartialEq, Eq, Structural)]
pub enum Layout {
    Rust,
    Transparent,
    C,
}

/// Metadata about the `#[repr]` attributes of a struct.
#[derive(Debug, Clone, Copy, PartialEq, Eq, Structural)]
pub struct StructRepr {
    pub layout: Layout,
}

impl Default for StructRepr {
    fn default() -> (repr: Self)
        ensures
            repr.layout == Layout::Rust,
    {
        StructRepr { layout: Layout::Rust }
    }
}

impl StructRepr {
    /// Whether a struct with these attributes is eligible for zero-copy deserialization.
    ///
    /// Only `#[repr(transparent)]` and `#[repr(C)]` structs are.
    pub fn is_zero_copy_eligible(&self) -> (eligible: bool)
        ensures
            eligible == (self.layout == Layout::Transparent || self.layout == Layout::C),
    {
        matches!(self.layout, Layout::Transparent | Layout::C)
    }
}

/// An attribute of a declaration: its name, where its path is a single identifier, and its text
/// as a whole, such as `#[repr(C)]`.
#[derive(Debug, PartialEq, Eq)]
pub struct Attribute {
    pub name: Option<String>,
    pub text: String,
}

/// Why the `#[repr]` attributes of a declaration are refused.
#[derive(Debug, PartialEq, Eq)]
pub enum ReprError {
    /// The arguments of the attribute at this index cannot be parsed, or it has none, for the
    /// reason that the parser gives.
    Malformed(usize, String),
    /// The attribute at this index says that the type is packed.
    Packed(usize, String),
}

/// The names of the metas at the beginning of the arguments of an attribute, each `None` where
/// its path is no single identifier, up to and with the first that is followed by neither a comma
/// nor the end; and what is said of that where there is one, or of an attribute that has no
/// arguments.
pub uninterp spec fn leading_names(attribute: Seq<char>) -> (
    Seq<Option<Seq<char>>>,
    Option<Seq<char>>,
);

/// `syn::Attribute::parse_nested_meta`, on the attribute that `syn` parses from the text, with a
/// closure that notes the identifier that the path of each meta is, and reads nothing behind it.
///
/// Claimed is only that the outcome is determined by the text: the identifiers that are noted,
/// in order, and the text of the error where there is one.
#[verifier::external_body]
fn parse_leading_names(attribute: &str) -> (leading: (Vec<Option<String>>, Option<String>))
    ensures
        leading_names(attribute@) == (opt_texts(leading.0@), opt_text(leading.1)),
{
    let mut names: Vec<Option<String>> = Vec::new();
    let attrs = syn::parse::Parser::parse_str(syn::Attribute::parse_outer, attribute);
    let result = match attrs.map(|mut list| list.pop()) {
        Ok(Some(attr)) => attr.parse_nested_meta(|meta| {
            names.push(meta.path.get_ident().map(|ident| ident.to_string()));
            Ok(())
        }),
        Ok(None) => Ok(()),
        Err(error) => Err(error),
    };
    (names, result.err().map(|error| error.to_string()))
}

/// The comma-separated metas that the arguments of an attribute are: the name of each, `None`
/// where its path is no single identifier, and whether it is a path alone, without a list or a
/// value; `None` where they are not a list of metas.
pub uninterp spec fn meta_names(attribute: Seq<char>) -> Option<Seq<(Option<Seq<char>>, bool)>>;

/// `syn::Attribute::parse_args_with`, on the attribute that `syn` parses from the text, with
/// `syn::punctuated::Punctuated::<syn::Meta, _>::parse_terminated` as the parser.
///
/// Claimed is only that the outcome is determined by the text: whether it parses, and of each
/// meta, in order, the identifier that its path is, and whether it is a path alone.
#[verifier::external_body]
fn parse_meta_names(attribute: &str) -> (metas: Option<Vec<(Option<String>, bool)>>)
    ensures
        opt_items(metas) == meta_names(attribute@),
{
    let attrs = syn::parse::Parser::parse_str(syn::Attribute::parse_outer, attribute);
    let attr = attrs.ok()?.pop()?;
    let metas = attr.parse_args_with(
        syn::punctuated::Punctuated::<syn::Meta, syn::token::Comma>::parse_terminated,
    ).ok()?;
    Some(
        metas.iter().map(
            |meta| (
                meta.path().get_ident().map(|ident| ident.to_string()),
                meta.require_path_only().is_ok(),
            ),
        ).collect(),
    )
}

/// The views of names.
pub open spec fn opt_texts(names: Seq<Option<String>>) -> Seq<Option<Seq<char>>> {
    Seq::new(names.len(), |i: int| opt_text(names[i]))
}

/// The views of metas.
pub open spec fn items(metas: Seq<(Option<String>, bool)>) -> Seq<(Option<Seq<char>>, bool)> {
    Seq::new(metas.len(), |i: int| (opt_text(metas[i].0), metas[i].1))
}

/// The views of metas that are known or not.
pub open spec fn opt_items(metas: Option<Vec<(Option<String>, bool)>>) -> Option<
    Seq<(Option<Seq<char>>, bool)>,
> {
    match metas {
        Some(list) => Some(items(list@)),
        None => None,
    }
}

/// What comes of one `#[repr]` attribute.
#[derive(Debug, PartialEq, Eq)]
pub enum Applied {
    /// This layout holds after it.
    Layout(Layout),
    /// It says that the type is packed.
    Packed,
    /// It cannot be parsed, for the reason that the parser gives.
    Malformed(String),
}

/// The view of what comes of one `#[repr]` attribute.
pub ghost enum Outcome {
    Layout(Layout),
    Packed,
    Malformed(Seq<char>),
}

impl View for Applied {
    type V = Outcome;

    open spec fn view(&self) -> Outcome {
        match self {
            Applied::Layout(layout) => Outcome::Layout(*layout),
            Applied::Packed => Outcome::Packed,
            Applied::Malformed(message) => Outcome::Malformed(message@),
        }
    }
}

/// What a name in a `#[repr]` attribute says.
#[derive(Debug, Clone, Copy, PartialEq, Eq, Structural)]
pub enum Hint {
    Packed,
    Layout(Layout),
    /// Nothing that matters here.
    Other,
}

/// What a name in a `#[repr]` attribute says.
pub open spec fn hint(name: Option<Seq<char>>) -> Hint {
    if name == Some("packed"@) {
        Hint::Packed
    } else if name == Some("C"@) {
        Hint::Layout(Layout::C)
    } else if name == Some("transparent"@) {
        Hint::Layout(Layout::Transparent)
    } else {
        Hint::Other
    }
}

/// What a name in a `#[repr]` attribute says.
fn hint_of(name: &Option<String>) -> (found: Hint)
    ensures
        found == hint(opt_text(*name)),
{
    match name {
        Some(text) => {
            if *text == "packed".to_owned() {
                Hint::Packed
            } else if *text == "C".to_owned() {
                Hint::Layout(Layout::C)
            } else if *text == "transparent".to_owned() {
                Hint::Layout(Layout::Transparent)
            } else {
                Hint::Other
            }
        },
        None => Hint::Other,
    }
}

/// Whether one of the metas is `packed`.
pub open spec fn lists_packed(metas: Seq<(Option<Seq<char>>, bool)>) -> bool {
    exists|i: int| 0 <= i < metas.len() && hint((#[trigger] metas[i]).0) == Hint::Packed
}

/// The layout that is named last by a path alone, wherever in the list that is; `layout` where
/// none is.
pub open spec fn last_named(layout: Layout, metas: Seq<(Option<Seq<char>>, bool)>) -> Layout
    decreases metas.len(),
{
    if metas.len() == 0 {
        layout
    } else {
        match (hint(metas.last().0), metas.last().1) {
            (Hint::Layout(named), true) => named,
            _ => last_named(layout, metas.drop_last()),
        }
    }
}

/// What comes of an attribute that is accepted as far as it was read, with `layout` as the layout
/// so far: its metas, if it is a list of metas, decide as a whole, whatever stands among them.
pub open spec fn accepted(
    layout: Layout,
    listed: Option<Seq<(Option<Seq<char>>, bool)>>,
) -> Outcome {
    match listed {
        Some(metas) => if lists_packed(metas) {
            Outcome::Packed
        } else {
            Outcome::Layout(last_named(layout, metas))
        },
        None => Outcome::Layout(layout),
    }
}

/// What comes of an attribute, where `layout` held before it and its leading names are those from
/// `i` on.
///
/// The names are read one by one. A name other than `packed`, `C` and `transparent` ends that:
/// what cannot be parsed behind it is no error.
pub open spec fn applied(
    layout: Layout,
    leading: (Seq<Option<Seq<char>>>, Option<Seq<char>>),
    listed: Option<Seq<(Option<Seq<char>>, bool)>>,
    i: int,
) -> Outcome
    decreases leading.0.len() - i,
{
    if i < 0 || i >= leading.0.len() {
        match leading.1 {
            Some(message) => Outcome::Malformed(message),
            None => accepted(layout, listed),
        }
    } else {
        match hint(leading.0[i]) {
            Hint::Packed => Outcome::Packed,
            Hint::Layout(named) => applied(named, leading, listed, i + 1),
            Hint::Other => accepted(layout, listed),
        }
    }
}

/// Applies the metas of an attribute that is accepted as far as it was read.
fn accept(layout: Layout, listed: &Option<Vec<(Option<String>, bool)>>) -> (after: Applied)
    ensures
        after@ == accepted(layout, opt_items(*listed)),
{
    let metas = match listed {
        Some(metas) => metas,
        None => {
            return Applied::Layout(layout);
        },
    };
    let ghost all = items(metas@);
    let mut current: Layout = layout;
    let mut i: usize = 0;
    while i < metas.len()
        invariant
            i <= metas.len(),
            all == items(metas@),
            opt_items(*listed) == Some(all),
            forall|k: int| 0 <= k < i ==> hint((#[trigger] all[k]).0) != Hint::Packed,
            current == last_named(layout, all.take(i as int)),
        decreases metas.len() - i,
    {
        assert(all.take(i + 1).drop_last() =~= all.take(i as int));
        assert(all[i as int] == (opt_text(metas@[i as int].0), metas@[i as int].1));
        match hint_of(&metas[i].0) {
            Hint::Packed => {
                return Applied::Packed;
            },
            Hint::Layout(named) => {
                if metas[i].1 {
                    current = named;
                }
            },
            Hint::Other => (),
        }
        i += 1;
    }
    assert(all.take(i as int) =~= all);
    Applied::Layout(current)
}

/// Applies an attribute to the layout that held before it, where `leading` is its leading names,
/// with what is said of where they end, and `listed` its metas if it is a list of metas.
pub fn apply_metas(
    layout: Layout,
    leading: &(Vec<Option<String>>, Option<String>),
    listed: &Option<Vec<(Option<String>, bool)>>,
) -> (after: Applied)
    ensures
        after@ == applied(
            layout,
            (opt_texts(leading.0@), opt_text(leading.1)),
            opt_items(*listed),
            0,
        ),
{
    let ghost all = (opt_texts(leading.0@), opt_text(leading.1));
    let mut current: Layout = layout;
    let mut i: usize = 0;
    while i < leading.0.len()
        invariant
            i <= leading.0@.len(),
            all == (opt_texts(leading.0@), opt_text(leading.1)),
            applied(layout, all, opt_items(*listed), 0) == applied(
                current,
                all,
                opt_items(*listed),
                i as int,
            ),
        decreases leading.0@.len() - i,
    {
        match hint_of(&leading.0[i]) {
            Hint::Packed => {
                return Applied::Packed;
            },
            Hint::Layout(named) => {
                current = named;
            },
            Hint::Other => {
                return accept(current, listed);
            },
        }
        i += 1;
    }
    match &leading.1 {
        Some(message) => Applied::Malformed(message.clone()),
        None => accept(current, listed),
    }
}

/// What the attributes before index `n` say about the layout; if one of them is refused, the
/// index of the first such and why it is.
pub open spec fn repr_of(attrs: Seq<Attribute>, n: nat) -> Result<Layout, (nat, Outcome)>
    decreases n,
{
    if n == 0 {
        Ok(Layout::Rust)
    } else {
        match repr_of(attrs, (n - 1) as nat) {
            Err(at) => Err(at),
            Ok(layout) => {
                let attr = attrs[n - 1];
                if opt_text(attr.name) != Some("repr"@) {
                    Ok(layout)
                } else {
                    match applied(layout, leading_names(attr.text@), meta_names(attr.text@), 0) {
                        Outcome::Layout(after) => Ok(after),
                        refusal => Err(((n - 1) as nat, refusal)),
                    }
                }
            },
        }
    }
}

/// What is said to the author of a packed type.
pub open spec fn packed_message(trait_impl: Seq<char>) -> Seq<char> {
    "`"@ + trait_impl
        + "` cannot be derived for types annotated with `#[repr(packed)]` or `#[repr(packed(n))]`"@
}

/// Extracts the `#[repr]` attributes of a declaration, and refuses a packed type.
///
/// The attributes are read in order, and the last layout named wins, wherever it stands in its
/// list. A type is refused as packed wherever `packed` stands in a list; `trait_impl` names the
/// trait in the message.
pub fn extract_repr(attrs: &Vec<Attribute>, trait_impl: &str) -> (result: Result<
    StructRepr,
    ReprError,
>)
    ensures
        match (result, repr_of(attrs@, attrs@.len())) {
            (Ok(repr), Ok(layout)) => repr.layout == layout,
            (Err(ReprError::Malformed(at, message)), Err((index, refusal))) => {
                &&& refusal == Outcome::Malformed(message@)
                &&& at == index
            },
            (Err(ReprError::Packed(at, message)), Err((index, refusal))) => {
                &&& refusal == Outcome::Packed
                &&& at == index
                &&& message@ == packed_message(trait_impl@)
            },
            _ => false,
        },
{
    let repr_name: String = "repr".to_owned();
    let mut struct_repr: StructRepr = StructRepr::default();
    let mut i: usize = 0;
    while i < attrs.len()
        invariant
            i <= attrs.len(),
            repr_name@ == "repr"@,
            repr_of(attrs@, i as nat) == Ok::<Layout, (nat, Outcome)>(struct_repr.layout),
        decreases attrs.len() - i,
    {
        let is_repr = match &attrs[i].name {
            Some(name) => *name == repr_name,
            None => false,
        };
        if is_repr {
            let leading = parse_leading_names(attrs[i].text.as_str());
            let listed = parse_meta_names(attrs[i].text.as_str());
            let after = apply_metas(struct_repr.layout, &leading, &listed);
            match after {
                Applied::Layout(layout) => {
                    struct_repr = StructRepr { layout };
                },
                Applied::Packed => {
                    proof {
                        lemma_refusal_stays(attrs@, (i + 1) as nat, attrs@.len());
                    }
                    let mut message: String = "`".to_owned();
                    message.append(trait_impl);
                    message.append(
                        "` cannot be derived for types annotated with `#[repr(packed)]` or `#[repr(packed(n))]`",
                    );
                    return Err(ReprError::Packed(i, message));
                },
                Applied::Malformed(message) => {
                    proof {
                        lemma_refusal_stays(attrs@, (i + 1) as nat, attrs@.len());
                    }
                    return Err(ReprError::Malformed(i, message));
                },
            }
        }
        i += 1;
    }
    Ok(struct_repr)
}

/// Attributes behind a refused one change nothing.
proof fn lemma_refusal_stays(attrs: Seq<Attribute>, m: nat, n: nat)
    requires
        m <= n,
        repr_of(attrs, m) is Err,
    ensures
        repr_of(attrs, n) == repr_of(attrs, m),
    decreases n,
{
    if m < n {
        lemma_refusal_stays(attrs, m, (n - 1) as nat);
    }
}

/// A packed type is refused: where some `#[repr]` attribute lists `packed`, no layout comes
/// out.
pub proof fn packed_types_are_refused(attrs: Seq<Attribute>, at: int)
    requires
        0 <= at < attrs.len(),
        opt_text(attrs[at].name) == Some("repr"@),
        meta_names(attrs[at].text@) matches Some(metas) && lists_packed(metas),
    ensures
        repr_of(attrs, attrs.len()) is Err,
{
    if let Ok(layout) = repr_of(attrs, at as nat) {
        let text = attrs[at].text@;
        lemma_layout_is_that_of_the_list(layout, leading_names(text), meta_names(text)->Some_0, 0);
    }
    assert(repr_of(attrs, (at + 1) as nat) is Err);
    lemma_refusal_stays(attrs, (at + 1) as nat, attrs.len());
}

/// Whatever is listed before or behind it, the layout that a list of metas names last is the one
/// that comes out, if one comes out.
pub proof fn listed_layouts_are_extracted(
    layout: Layout,
    leading: (Seq<Option<Seq<char>>>, Option<Seq<char>>),
    metas: Seq<(Option<Seq<char>>, bool)>,
    at: int,
)
    requires
        0 <= at < metas.len(),
        hint(metas[at].0) is Layout,
        metas[at].1,
        forall|i: int| at < i < metas.len() ==> hint((#[trigger] metas[i]).0) == Hint::Other,
    ensures
        applied(layout, leading, Some(metas), 0) matches Outcome::Layout(found) ==> found == hint(
            metas[at].0,
        )->Layout_0,
{
    lemma_layout_is_that_of_the_list(layout, leading, metas, 0);
    if applied(layout, leading, Some(metas), 0) is Layout {
        let before = choose|before: Layout|
            applied(layout, leading, Some(metas), 0) == Outcome::Layout(
                #[trigger] last_named(before, metas),
            );
        lemma_last_named(before, metas, at);
    }
}

proof fn lemma_layout_is_that_of_the_list(
    layout: Layout,
    leading: (Seq<Option<Seq<char>>>, Option<Seq<char>>),
    metas: Seq<(Option<Seq<char>>, bool)>,
    i: int,
)
    ensures
        applied(layout, leading, Some(metas), i) is Layout ==> !lists_packed(metas) && exists|
            before: Layout,
        |
            applied(layout, leading, Some(metas), i) == Outcome::Layout(
                #[trigger] last_named(before, metas),
            ),
    decreases leading.0.len() - i,
{
    let here = last_named(layout, metas);
    if 0 <= i < leading.0.len() {
        if let Hint::Layout(named) = hint(leading.0[i]) {
            lemma_layout_is_that_of_the_list(named, leading, metas, i + 1);
        }
    }
}

proof fn lemma_last_named(layout: Layout, metas: Seq<(Option<Seq<char>>, bool)>, at: int)
    requires
        0 <= at < metas.len(),
        hint(metas[at].0) is Layout,
        metas[at].1,
        forall|i: int| at < i < metas.len() ==> hint((#[trigger] metas[i]).0) == Hint::Other,
    ensures
        last_named(layout, metas) == hint(metas[at].0)->Layout_0,
    decreases metas.len(),
{
    if at < metas.len() - 1 {
        assert(hint(metas[metas.len() - 1].0) == Hint::Other);
        lemma_last_named(layout, metas.drop_last(), at);
    }
}

/// Whether a name is that of a layout.
pub open spec fn names_layout(name: Option<Seq<char>>) -> bool {
    name == Some("C"@) || name == Some("transparent"@)
}

/// The names that matter are different.
proof fn lemma_names_differ()
    ensures
        "C"@ != "transparent"@,
        "C"@ != "packed"@,
        "packed"@ != "transparent"@,
{
    reveal_strlit("C");
    reveal_strlit("transparent");
    reveal_strlit("packed");
    assert("C"@.len() == 1);
    assert("transparent"@.len() == 11);
    assert("packed"@.len() == 6);
}

/// `packed` says that a type is packed, `C` and `transparent` name layouts, and no other name
/// says anything.
pub proof fn names_say_what_they_are(name: Option<Seq<char>>)
    ensures
        hint(Some("packed"@)) == Hint::Packed,
        hint(Some("C"@)) == Hint::Layout(Layout::C),
        hint(Some("transparent"@)) == Hint::Layout(Layout::Transparent),
        name != Some("packed"@) && !names_layout(name) ==> hint(name) == Hint::Other,
{
    lemma_names_differ();
}

/// Wherever in the list of a `#[repr]` attribute `packed` stands, with a value or without, the
/// declaration is refused.
pub proof fn packed_is_refused_anywhere(
    attrs: Seq<Attribute>,
    at: int,
    metas: Seq<(Option<Seq<char>>, bool)>,
    i: int,
)
    requires
        0 <= at < attrs.len(),
        opt_text(attrs[at].name) == Some("repr"@),
        meta_names(attrs[at].text@) == Some(metas),
        0 <= i < metas.len(),
        metas[i].0 == Some("packed"@),
    ensures
        repr_of(attrs, attrs.len()) is Err,
{
    names_say_what_they_are(metas[i].0);
    assert(hint(metas[i].0) == Hint::Packed);
    assert(lists_packed(metas));
    packed_types_are_refused(attrs, at);
}

/// An attribute is malformed exactly if it cannot be parsed behind names of which each is that
/// of a layout, and the reason is the one that the parser gives.
pub proof fn attributes_are_malformed_if_unreadable(
    layout: Layout,
    leading: (Seq<Option<Seq<char>>>, Option<Seq<char>>),
    listed: Option<Seq<(Option<Seq<char>>, bool)>>,
    message: Seq<char>,
)
    ensures
        applied(layout, leading, listed, 0) == Outcome::Malformed(message) <==> {
            &&& leading.1 == Some(message)
            &&& forall|i: int| 0 <= i < leading.0.len() ==> names_layout(#[trigger] leading.0[i])
        },
{
    lemma_malformed(layout, leading, listed, message, 0);
}

proof fn lemma_malformed(
    layout: Layout,
    leading: (Seq<Option<Seq<char>>>, Option<Seq<char>>),
    listed: Option<Seq<(Option<Seq<char>>, bool)>>,
    message: Seq<char>,
    from: int,
)
    requires
        0 <= from <= leading.0.len(),
    ensures
        applied(layout, leading, listed, from) == Outcome::Malformed(message) <==> {
            &&& leading.1 == Some(message)
            &&& forall|i: int| from <= i < leading.0.len() ==> names_layout(#[trigger] leading.0[i])
        },
    decreases leading.0.len() - from,
{
    lemma_names_differ();
    if from < leading.0.len() {
        if let Hint::Layout(named) = hint(leading.0[from]) {
            lemma_malformed(named, leading, listed, message, from + 1);
            assert(names_layout(leading.0[from]));
        } else {
            assert(!names_layout(leading.0[from]));
        }
    }
}

/// An attribute that can be read says that a type is packed exactly if `packed` is read behind
/// names of layouts, or is one of the metas of its list.
pub proof fn attributes_are_packed_if_they_say_so(
    layout: Layout,
    leading: (Seq<Option<Seq<char>>>, Option<Seq<char>>),
    listed: Option<Seq<(Option<Seq<char>>, bool)>>,
)
    requires
        !(applied(layout, leading, listed, 0) is Malformed),
    ensures
        applied(layout, leading, listed, 0) == Outcome::Packed <==> {
            ||| exists|n: int|
                0 <= n < leading.0.len() && #[trigger] leading.0[n] == Some("packed"@) && forall|
                    i: int,
                |
                    0 <= i < n ==> names_layout(#[trigger] leading.0[i])
            ||| listed matches Some(metas) && exists|i: int|
                0 <= i < metas.len() && (#[trigger] metas[i]).0 == Some("packed"@)
        },
{
    lemma_packed(layout, leading, listed, 0);
}

proof fn lemma_packed(
    layout: Layout,
    leading: (Seq<Option<Seq<char>>>, Option<Seq<char>>),
    listed: Option<Seq<(Option<Seq<char>>, bool)>>,
    from: int,
)
    requires
        0 <= from <= leading.0.len(),
        !(applied(layout, leading, listed, from) is Malformed),
    ensures
        applied(layout, leading, listed, from) == Outcome::Packed <==> {
            ||| exists|n: int|
                from <= n < leading.0.len() && #[trigger] leading.0[n] == Some("packed"@)
                    && forall|i: int| from <= i < n ==> names_layout(#[trigger] leading.0[i])
            ||| listed matches Some(metas) && exists|i: int|
                0 <= i < metas.len() && (#[trigger] metas[i]).0 == Some("packed"@)
        },
    decreases leading.0.len() - from,
{
    lemma_names_differ();
    if let Some(metas) = listed {
        if lists_packed(metas) {
            let i = choose|i: int|
                0 <= i < metas.len() && hint((#[trigger] metas[i]).0) == Hint::Packed;
            assert(metas[i].0 == Some("packed"@));
        } else {
            assert forall|i: int| 0 <= i < metas.len() implies (#[trigger] metas[i]).0 != Some(
                "packed"@,
            ) by {
                assert(hint(metas[i].0) != Hint::Packed);
            }
        }
    }
    if from < leading.0.len() {
        match hint(leading.0[from]) {
            Hint::Packed => {
                assert(leading.0[from] == Some("packed"@));
            },
            Hint::Layout(named) => {
                lemma_packed(named, leading, listed, from + 1);
                assert(names_layout(leading.0[from]));
                if exists|n: int|
                    from + 1 <= n < leading.0.len() && #[trigger] leading.0[n] == Some("packed"@)
                        && forall|i: int| from + 1 <= i < n ==> names_layout(#[trigger] leading.0[i]) {
                    let n = choose|n: int|
                        from + 1 <= n < leading.0.len() && #[trigger] leading.0[n] == Some(
                            "packed"@,
                        ) && forall|i: int|
                            from + 1 <= i < n ==> names_layout(#[trigger] leading.0[i]);
                    assert forall|i: int| from <= i < n implies names_layout(
                        #[trigger] leading.0[i],
                    ) by {
                        if i > from {
                            assert(from + 1 <= i);
                        }
                    }
                    assert(leading.0[n] == Some("packed"@));
                }
                if exists|n: int|
                    from <= n < leading.0.len() && #[trigger] leading.0[n] == Some("packed"@)
                        && forall|i: int| from <= i < n ==> names_layout(#[trigger] leading.0[i]) {
                    let n = choose|n: int|
                        from <= n < leading.0.len() && #[trigger] leading.0[n] == Some("packed"@)
                            && forall|i: int| from <= i < n ==> names_layout(#[trigger] leading.0[i]);
                    assert(n > from);
                    assert(leading.0[n] == Some("packed"@));
                }
            },
            Hint::Other => {
                assert(!names_layout(leading.0[from]));
                assert(leading.0[from] != Some("packed"@));
            },
        }
    }
}

/// The layout that a name stands for.
pub open spec fn layout_named(name: Option<Seq<char>>) -> Layout {
    if name == Some("C"@) {
        Layout::C
    } else {
        Layout::Transparent
    }
}

/// Whether a meta is the name of a layout alone.
pub open spec fn is_layout(meta: (Option<Seq<char>>, bool)) -> bool {
    meta.1 && names_layout(meta.0)
}

/// Where a layout comes out of an attribute whose list names layouts alone, it is the last of
/// these, whatever stands before, between and behind them.
pub proof fn the_last_listed_layout_wins(
    layout: Layout,
    leading: (Seq<Option<Seq<char>>>, Option<Seq<char>>),
    metas: Seq<(Option<Seq<char>>, bool)>,
    at: int,
)
    requires
        0 <= at < metas.len(),
        is_layout(metas[at]),
        forall|i: int| at < i < metas.len() ==> !is_layout(#[trigger] metas[i]),
    ensures
        applied(layout, leading, Some(metas), 0) matches Outcome::Layout(found) ==> found
            == layout_named(metas[at].0),
{
    lemma_layout_is_that_of_the_list(layout, leading, metas, 0);
    if applied(layout, leading, Some(metas), 0) is Layout {
        let before = choose|before: Layout|
            applied(layout, leading, Some(metas), 0) == Outcome::Layout(
                #[trigger] last_named(before, metas),
            );
        lemma_last_layout(before, metas, at);
    }
}

proof fn lemma_last_layout(layout: Layout, metas: Seq<(Option<Seq<char>>, bool)>, at: int)
    requires
        0 <= at < metas.len(),
        is_layout(metas[at]),
        forall|i: int| at < i < metas.len() ==> !is_layout(#[trigger] metas[i]),
    ensures
        last_named(layout, metas) == layout_named(metas[at].0),
    decreases metas.len(),
{
    lemma_names_differ();
    if at < metas.len() - 1 {
        assert(!is_layout(metas[metas.len() - 1]));
        lemma_last_layout(layout, metas.drop_last(), at);
    }
}

/// Where a layout comes out of an attribute that is no list of metas, or whose list names no
/// layout alone, it is the last of the layouts whose names are read one by one up to the first
/// other name, and the one that held before where there is none.
pub proof fn else_the_last_leading_layout_wins(
    layout: Layout,
    leading: (Seq<Option<Seq<char>>>, Option<Seq<char>>),
    listed: Option<Seq<(Option<Seq<char>>, bool)>>,
    n: int,
)
    requires
        0 <= n <= leading.0.len(),
        forall|i: int| 0 <= i < n ==> names_layout(#[trigger] leading.0[i]),
        n < leading.0.len() ==> !names_layout(leading.0[n]),
        listed matches Some(metas) ==> forall|i: int|
            0 <= i < metas.len() ==> !is_layout(#[trigger] metas[i]),
    ensures
        applied(layout, leading, listed, 0) matches Outcome::Layout(found) ==> found == if n == 0 {
            layout
        } else {
            layout_named(leading.0[n - 1])
        },
{
    lemma_leading_layout(layout, leading, listed, n, 0);
}

proof fn lemma_leading_layout(
    layout: Layout,
    leading: (Seq<Option<Seq<char>>>, Option<Seq<char>>),
    listed: Option<Seq<(Option<Seq<char>>, bool)>>,
    n: int,
    from: int,
)
    requires
        0 <= from <= n <= leading.0.len(),
        forall|i: int| 0 <= i < n ==> names_layout(#[trigger] leading.0[i]),
        n < leading.0.len() ==> !names_layout(leading.0[n]),
        listed matches Some(metas) ==> forall|i: int|
            0 <= i < metas.len() ==> !is_layout(#[trigger] metas[i]),
    ensures
        applied(layout, leading, listed, from) matches Outcome::Layout(found) ==> found == if n
            == from {
            layout
        } else {
            layout_named(leading.0[n - 1])
        },
    decreases n - from,
{
    lemma_names_differ();
    if from < n {
        assert(names_layout(leading.0[from]));
        lemma_leading_layout(layout_named(leading.0[from]), leading, listed, n, from + 1);
    } else {
        if let Some(metas) = listed {
            lemma_no_layout(layout, metas);
        }
    }
}

proof fn lemma_no_layout(layout: Layout, metas: Seq<(Option<Seq<char>>, bool)>)
    requires
        forall|i: int| 0 <= i < metas.len() ==> !is_layout(#[trigger] metas[i]),
    ensures
        last_named(layout, metas) == layout,
    decreases metas.len(),
{
    lemma_names_differ();
    if metas.len() > 0 {
        assert(!is_layout(metas[metas.len() - 1]));
        lemma_no_layout(layout, metas.drop_last());
    }
}

/// Without attributes the layout is that of Rust. An attribute of another name changes nothing,
/// a `#[repr]` attribute is applied to the layout before it, and what is refused stays refused
/// at the attribute that it was refused for.
pub proof fn attributes_are_read_in_order(attrs: Seq<Attribute>, n: nat)
    requires
        n < attrs.len(),
    ensures
        repr_of(attrs, 0) == Ok::<Layout, (nat, Outcome)>(Layout::Rust),
        opt_text(attrs[n as int].name) != Some("repr"@) ==> repr_of(attrs, n + 1) == repr_of(
            attrs,
            n,
        ),
        repr_of(attrs, n) is Err ==> repr_of(attrs, n + 1) == repr_of(attrs, n),
        opt_text(attrs[n as int].name) == Some("repr"@) ==> (repr_of(attrs, n) matches Ok(layout)
            ==> {
            let text = attrs[n as int].text@;
            let after = applied(layout, leading_names(text), meta_names(text), 0);
            &&& after matches Outcome::Layout(next) ==> repr_of(attrs, n + 1) == Ok::<
                Layout,
                (nat, Outcome),
            >(next)
            &&& !(after is Layout) ==> repr_of(attrs, n + 1) == Err::<Layout, (nat, Outcome)>(
                (n, after),
            )
        }),
{
}

/// The author of a packed type is told which trait cannot be derived.
pub proof fn packed_messages_name_the_trait(trait_impl: Seq<char>)
    ensures
        packed_message(trait_impl) == "`"@ + trait_impl
            + "` cannot be derived for types annotated with `#[repr(packed)]` or `#[repr(packed(n))]`"@,
{
}

/// The views of names and of metas are those of each of them, in order.
pub proof fn views_are_those_of_the_metas(
    names: Seq<Option<String>>,
    metas: Vec<(Option<String>, bool)>,
    applied: Applied,
    i: int,
)
    ensures
        opt_texts(names).len() == names.len(),
        0 <= i < names.len() ==> opt_texts(names)[i] == opt_text(names[i]),
        opt_items(None) is None,
        opt_items(Some(metas)) matches Some(views) && views.len() == metas@.len() && (0 <= i
            < views.len() ==> views[i] == (opt_text(metas@[i].0), metas@[i].1)),
        match (applied, applied@) {
            (Applied::Layout(layout), Outcome::Layout(of)) => of == layout,
            (Applied::Packed, Outcome::Packed) => true,
            (Applied::Malformed(message), Outcome::Malformed(of)) => of == message@,
            _ => false,
        },
{
}

} // verus!
