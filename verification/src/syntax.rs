//! The syntax of types, paths and bounds, as a tree.
//!
//! A tree holds what a visitor of the syntax meets, in the order in which it meets it.
//! Punctuation is left out: it follows from the kind of a node.

use vstd::prelude::*;

verus! {

/// What a node of the tree is. Behind each kind stand its children, in order.
#[derive(Debug, Clone, Copy, PartialEq, Eq, Structural)]
pub enum Kind {
    /// `[T; n]`: the element type, then the length.
    Array,
    /// `fn(A) -> B`: bound lifetimes, text of qualifiers, arguments, return type.
    BareFn,
    /// A type in invisible delimiters: the type.
    Group,
    /// `impl A + 'b`: the bounds, a lifetime bound being a bare lifetime.
    ImplTrait,
    /// `_`.
    Infer,
    /// `m!(..)`: the path, then the text of the tokens.
    Macro,
    /// `!`.
    Never,
    /// `(T)`: the type.
    Paren,
    /// A type named by a path: a qualified self type where there is one, then the path.
    PathType,
    /// `*const T` or `*mut T`: the type.
    Ptr { mutable: bool },
    /// `&'a T` or `&'a mut T`: the lifetime where it is written, then the type.
    Reference { mutable: bool },
    /// `[T]`: the element type.
    Slice,
    /// `dyn A + 'b`: the bounds, a lifetime bound being a bare lifetime.
    TraitObject { dyn_token: bool },
    /// `(A, B)`: the types.
    Tuple,
    /// A type that is known by its text alone.
    Verbatim,
    /// `::a::b`: the segments.
    Path { leading_colon: bool },
    /// `name<..>`: the identifier, then the arguments where there are some.
    Segment,
    /// `<A, 'b, C = D>`: the generic arguments.
    AngleBracketed { turbofish: bool },
    /// `(A, B) -> C`: the argument types, then the return type.
    Parenthesized,
    /// `<T as _>`: the self type of a qualified path, whose trait has `position` segments.
    QSelf { position: usize },
    /// A lifetime as a generic argument: the lifetime.
    LifetimeArgument,
    /// A type as a generic argument: the type.
    TypeArgument,
    /// A constant as a generic argument: the expression.
    ConstArgument,
    /// `Name = T`: the identifier, arguments where there are some, the type.
    AssocType,
    /// `NAME = 1`: the identifier, arguments where there are some, the expression.
    AssocConst,
    /// `Name: Bound`: the identifier, arguments where there are some, the bounds.
    Constraint,
    /// `?for<'a> Trait`: bound lifetimes where there are some, then the path.
    TraitBound { maybe: bool, paren: bool },
    /// `use<'a, T>`: the captured lifetimes and identifiers.
    PreciseCapture,
    /// `for<'a>`: the parameters.
    BoundLifetimes,
    /// `'a: 'b`: the lifetime, then its bounds.
    LifetimeParam,
    /// `name: T` or `T`: the identifier where there is one, then the type.
    FnArg,
    /// `-> T`: the type.
    ReturnType,
    /// An expression: whatever it holds.
    Expression,
    /// `{..}` in an expression: whatever it holds.
    Braces,
    /// `[..]` in an expression: whatever it holds.
    Brackets,
}

/// A node of the syntax tree.
#[derive(Debug, PartialEq, Eq)]
pub enum Syntax {
    /// A lifetime, without its apostrophe.
    Lifetime(String),
    /// An identifier.
    Ident(String),
    /// Text in which a visitor stops at nothing, such as a literal.
    Text(String),
    /// A node with its children.
    Tree(Kind, Vec<Syntax>),
}

/// A type.
pub type Type = Syntax;

/// An expression.
pub type Expr = Syntax;

/// The mathematical form of a syntax tree.
pub ghost enum Form {
    Lifetime(Seq<char>),
    Ident(Seq<char>),
    Text(Seq<char>),
    Tree(Kind, Seq<Form>),
}

impl Syntax {
    pub open spec fn form(self) -> Form
        decreases self,
    {
        match self {
            Syntax::Lifetime(name) => Form::Lifetime(name@),
            Syntax::Ident(name) => Form::Ident(name@),
            Syntax::Text(text) => Form::Text(text@),
            Syntax::Tree(kind, children) => Form::Tree(kind, forms(children@)),
        }
    }
}

/// The forms of a list of nodes.
pub open spec fn forms(nodes: Seq<Syntax>) -> Seq<Form>
    decreases nodes,
{
    Seq::new(
        nodes.len(),
        |i: int|
            if 0 <= i < nodes.len() {
                nodes[i].form()
            } else {
                arbitrary()
            },
    )
}

impl View for Syntax {
    type V = Form;

    open spec fn view(&self) -> Form {
        self.form()
    }
}

/// The form of an optional node.
pub open spec fn opt_form(node: Option<Syntax>) -> Option<Form> {
    match node {
        Some(node) => Some(node@),
        None => None,
    }
}

/// The forms of a list grow with the list.
pub(crate) proof fn lemma_forms_push(nodes: Seq<Syntax>, node: Syntax)
    ensures
        forms(nodes.push(node)) =~= forms(nodes).push(node@),
{
}

impl Clone for Syntax {
    fn clone(&self) -> (copy: Self)
        ensures
            copy@ == self@,
        decreases self,
    {
        match self {
            Syntax::Lifetime(name) => Syntax::Lifetime(name.clone()),
            Syntax::Ident(name) => Syntax::Ident(name.clone()),
            Syntax::Text(text) => Syntax::Text(text.clone()),
            Syntax::Tree(kind, children) => {
                let mut copies: Vec<Syntax> = Vec::new();
                let mut i: usize = 0;
                while i < children.len()
                    invariant
                        i <= children.len(),
                        self matches Syntax::Tree(_, c) && c == children,
                        forms(copies@) =~= forms(children@).take(i as int),
                    decreases children.len() - i,
                {
                    assert(decreases_to!(self => children[i as int]));
                    let child = children[i].clone();
                    proof {
                        lemma_forms_push(copies@, child);
                    }
                    copies.push(child);
                    i += 1;
                }
                assert(forms(children@).take(i as int) =~= forms(children@));
                Syntax::Tree(*kind, copies)
            },
        }
    }
}

impl Syntax {
    /// Whether two trees are the same.
    pub fn same(&self, other: &Syntax) -> (same: bool)
        ensures
            same == (self@ == other@),
        decreases self,
    {
        match (self, other) {
            (Syntax::Lifetime(a), Syntax::Lifetime(b)) => *a == *b,
            (Syntax::Ident(a), Syntax::Ident(b)) => *a == *b,
            (Syntax::Text(a), Syntax::Text(b)) => *a == *b,
            (Syntax::Tree(kind, children), Syntax::Tree(other_kind, other_children)) => {
                if *kind != *other_kind || children.len() != other_children.len() {
                    assert(forms(children@).len() == children@.len());
                    assert(forms(other_children@).len() == other_children@.len());
                    return false;
                }
                let mut i: usize = 0;
                while i < children.len()
                    invariant
                        i <= children.len(),
                        children.len() == other_children.len(),
                        self matches Syntax::Tree(_, c) && c == children,
                        other matches Syntax::Tree(_, c) && c == other_children,
                        forall|j: int|
                            0 <= j < i ==> #[trigger] forms(children@)[j] == forms(
                                other_children@,
                            )[j],
                    decreases children.len() - i,
                {
                    assert(decreases_to!(self => children[i as int]));
                    assert(forms(children@)[i as int] == children@[i as int]@);
                    assert(forms(other_children@)[i as int] == other_children@[i as int]@);
                    if !children[i].same(&other_children[i]) {
                        return false;
                    }
                    i += 1;
                }
                assert(forms(children@) =~= forms(other_children@));
                true
            },
            _ => false,
        }
    }
}

/// A path such as `::a::b`.
#[derive(Debug, PartialEq, Eq)]
pub struct Path {
    pub leading_colon: bool,
    /// The segments, each a node of kind `Segment`.
    pub segments: Vec<Syntax>,
}

impl View for Path {
    type V = Form;

    open spec fn view(&self) -> Form {
        Form::Tree(Kind::Path { leading_colon: self.leading_colon }, forms(self.segments@))
    }
}

/// Copies a list of nodes.
pub(crate) fn copy_nodes(nodes: &Vec<Syntax>) -> (copies: Vec<Syntax>)
    ensures
        forms(copies@) == forms(nodes@),
{
    let mut copies: Vec<Syntax> = Vec::new();
    let mut i: usize = 0;
    while i < nodes.len()
        invariant
            i <= nodes.len(),
            forms(copies@) =~= forms(nodes@).take(i as int),
        decreases nodes.len() - i,
    {
        let node = nodes[i].clone();
        proof {
            lemma_forms_push(copies@, node);
        }
        copies.push(node);
        i += 1;
    }
    assert(forms(nodes@).take(i as int) =~= forms(nodes@));
    copies
}

impl Clone for Path {
    fn clone(&self) -> (copy: Self)
        ensures
            copy@ == self@,
    {
        Path { leading_colon: self.leading_colon, segments: copy_nodes(&self.segments) }
    }
}

/// The form of a node is the node: its name, its text, or its kind with the forms of its
/// children, each of them and in order.
pub proof fn forms_are_those_of_the_nodes(node: Syntax, i: int)
    ensures
        node matches Syntax::Lifetime(name) ==> node@ == Form::Lifetime(name@),
        node matches Syntax::Ident(name) ==> node@ == Form::Ident(name@),
        node matches Syntax::Text(text) ==> node@ == Form::Text(text@),
        node matches Syntax::Tree(kind, children) ==> (node@ matches Form::Tree(of, parts) && of
            == kind && parts.len() == children@.len() && (0 <= i < parts.len() ==> parts[i]
            == children@[i]@)),
        opt_form(Some(node)) == Some(node@),
        opt_form(None) is None,
{
}

/// The form of a path is the path: whether it begins with `::`, and the forms of its segments,
/// each of them and in order.
pub proof fn forms_of_paths_are_those_of_the_segments(path: Path, i: int)
    ensures
        path@ matches Form::Tree(kind, parts) && kind == (Kind::Path {
            leading_colon: path.leading_colon,
        }) && parts.len() == path.segments@.len() && (0 <= i < parts.len() ==> parts[i]
            == path.segments@[i]@),
{
}

} // verus!
