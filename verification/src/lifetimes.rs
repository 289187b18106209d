//! The lifetimes of a type, and their replacement by one that the generated code declares.

use crate::syntax::{forms, lemma_forms_push, Form, Kind, Syntax};
use crate::text::{contains_text, texts};
use vstd::prelude::*;

verus! {

/// The lifetimes in a tree, in the order in which a visitor meets them.
pub open spec fn lifetimes_of(form: Form) -> Seq<Seq<char>>
    decreases form,
{
    match form {
        Form::Lifetime(name) => seq![name],
        Form::Ident(_) => seq![],
        Form::Text(_) => seq![],
        Form::Tree(_, children) => lifetimes_of_all(children),
    }
}

/// The lifetimes in a list of trees.
pub open spec fn lifetimes_of_all(children: Seq<Form>) -> Seq<Seq<char>>
    decreases children,
{
    if children.len() == 0 {
        seq![]
    } else {
        lifetimes_of_all(children.drop_last()) + lifetimes_of(children.last())
    }
}

/// The identifiers in a tree, in the order in which a visitor meets them. The name of a lifetime
/// is none: it stands for nothing but the lifetime.
pub open spec fn idents_of(form: Form) -> Seq<Seq<char>>
    decreases form,
{
    match form {
        Form::Lifetime(_) => seq![],
        Form::Ident(name) => seq![name],
        Form::Text(_) => seq![],
        Form::Tree(_, children) => idents_of_all(children),
    }
}

/// The identifiers in a list of trees.
pub open spec fn idents_of_all(children: Seq<Form>) -> Seq<Seq<char>>
    decreases children,
{
    if children.len() == 0 {
        seq![]
    } else {
        idents_of_all(children.drop_last()) + idents_of(children.last())
    }
}

/// Whether some name is in both lists.
pub open spec fn overlap(names: Seq<Seq<char>>, other: Seq<Seq<char>>) -> bool {
    exists|i: int| 0 <= i < names.len() && other.contains(#[trigger] names[i])
}

proof fn lemma_contains_concat(a: Seq<Seq<char>>, b: Seq<Seq<char>>, name: Seq<char>)
    ensures
        (a + b).contains(name) == (a.contains(name) || b.contains(name)),
{
    if a.contains(name) {
        let i = choose|i: int| 0 <= i < a.len() && a[i] == name;
        assert((a + b)[i] == name);
    }
    if b.contains(name) {
        let i = choose|i: int| 0 <= i < b.len() && b[i] == name;
        assert((a + b)[a.len() + i] == name);
    }
}

proof fn lemma_overlap_concat(a: Seq<Seq<char>>, b: Seq<Seq<char>>, other: Seq<Seq<char>>)
    ensures
        overlap(a + b, other) == (overlap(a, other) || overlap(b, other)),
{
    if overlap(a, other) {
        let i = choose|i: int| 0 <= i < a.len() && other.contains(#[trigger] a[i]);
        assert(other.contains((a + b)[i]));
    }
    if overlap(b, other) {
        let i = choose|i: int| 0 <= i < b.len() && other.contains(#[trigger] b[i]);
        assert(other.contains((a + b)[a.len() + i]));
    }
    if overlap(a + b, other) {
        let i = choose|i: int| 0 <= i < (a + b).len() && other.contains(#[trigger] (a + b)[i]);
        if i < a.len() {
            assert(other.contains(a[i]));
        } else {
            assert(other.contains(b[i - a.len()]));
        }
    }
}

impl Syntax {
    /// The lifetimes of this type.
    pub fn lifetimes(&self) -> (found: Vec<String>)
        ensures
            texts(found@) == lifetimes_of(self@),
        decreases self,
    {
        let mut found: Vec<String> = Vec::new();
        match self {
            Syntax::Lifetime(name) => {
                found.push(name.clone());
                assert(texts(found@) =~= seq![name@]);
            },
            Syntax::Ident(_) => {
                assert(texts(found@) =~= seq![]);
            },
            Syntax::Text(_) => {
                assert(texts(found@) =~= seq![]);
            },
            Syntax::Tree(_, children) => {
                let ghost all = forms(children@);
                assert(texts(found@) =~= lifetimes_of_all(all.take(0)));
                let mut i: usize = 0;
                while i < children.len()
                    invariant
                        i <= children.len(),
                        self matches Syntax::Tree(_, c) && c == children,
                        all == forms(children@),
                        texts(found@) == lifetimes_of_all(all.take(i as int)),
                    decreases children.len() - i,
                {
                    assert(decreases_to!(self => children[i as int]));
                    let mut inner = children[i].lifetimes();
                    let ghost before = found@;
                    let ghost added = inner@;
                    found.append(&mut inner);
                    assert(texts(before + added) =~= texts(before) + texts(added));
                    assert(all.take(i + 1).drop_last() =~= all.take(i as int));
                    i += 1;
                }
                assert(all.take(i as int) =~= all);
            },
        }
        found
    }

    /// Whether this type holds a lifetime.
    pub fn has_lifetime(&self) -> (found: bool)
        ensures
            found == (lifetimes_of(self@).len() > 0),
        decreases self,
    {
        match self {
            Syntax::Lifetime(_) => true,
            Syntax::Ident(_) => false,
            Syntax::Text(_) => false,
            Syntax::Tree(_, children) => {
                let ghost all = forms(children@);
                let mut found: bool = false;
                let mut i: usize = 0;
                while i < children.len()
                    invariant
                        i <= children.len(),
                        self matches Syntax::Tree(_, c) && c == children,
                        all == forms(children@),
                        found == (lifetimes_of_all(all.take(i as int)).len() > 0),
                    decreases children.len() - i,
                {
                    assert(decreases_to!(self => children[i as int]));
                    assert(all.take(i + 1).drop_last() =~= all.take(i as int));
                    let inner = children[i].has_lifetime();
                    found = found || inner;
                    i += 1;
                }
                assert(all.take(i as int) =~= all);
                found
            },
        }
    }

    /// Whether this type holds a lifetime of the given name.
    pub fn contains_lifetime(&self, lifetime: &String) -> (found: bool)
        ensures
            found == lifetimes_of(self@).contains(lifetime@),
        decreases self,
    {
        match self {
            Syntax::Lifetime(name) => {
                assert(seq![name@][0] == name@);
                *name == *lifetime
            },
            Syntax::Ident(_) => false,
            Syntax::Text(_) => false,
            Syntax::Tree(_, children) => {
                let ghost all = forms(children@);
                let mut found: bool = false;
                let mut i: usize = 0;
                while i < children.len()
                    invariant
                        i <= children.len(),
                        self matches Syntax::Tree(_, c) && c == children,
                        all == forms(children@),
                        found == lifetimes_of_all(all.take(i as int)).contains(lifetime@),
                    decreases children.len() - i,
                {
                    assert(decreases_to!(self => children[i as int]));
                    assert(all.take(i + 1).drop_last() =~= all.take(i as int));
                    let inner = children[i].contains_lifetime(lifetime);
                    proof {
                        lemma_contains_concat(
                            lifetimes_of_all(all.take(i as int)),
                            lifetimes_of(all[i as int]),
                            lifetime@,
                        );
                    }
                    found = found || inner;
                    i += 1;
                }
                assert(all.take(i as int) =~= all);
                found
            },
        }
    }

    /// Whether an identifier of this type is among `names`.
    pub fn mentions(&self, names: &Vec<String>) -> (found: bool)
        ensures
            found == overlap(idents_of(self@), texts(names@)),
        decreases self,
    {
        match self {
            Syntax::Lifetime(_) => false,
            Syntax::Ident(name) => {
                assert(idents_of(self@)[0] == name@);
                contains_text(names, name)
            },
            Syntax::Text(_) => false,
            Syntax::Tree(_, children) => {
                let ghost all = forms(children@);
                let mut found: bool = false;
                let mut i: usize = 0;
                while i < children.len()
                    invariant
                        i <= children.len(),
                        self matches Syntax::Tree(_, c) && c == children,
                        all == forms(children@),
                        found == overlap(idents_of_all(all.take(i as int)), texts(names@)),
                    decreases children.len() - i,
                {
                    assert(decreases_to!(self => children[i as int]));
                    assert(all.take(i + 1).drop_last() =~= all.take(i as int));
                    let inner = children[i].mentions(names);
                    proof {
                        lemma_overlap_concat(
                            idents_of_all(all.take(i as int)),
                            idents_of(all[i as int]),
                            texts(names@),
                        );
                    }
                    found = found || inner;
                    i += 1;
                }
                assert(all.take(i as int) =~= all);
                found
            },
        }
    }
}

/// The kinds of nodes whose direct lifetimes say what a type borrows from.
pub open spec fn borrows(kind: Kind) -> bool {
    kind is Reference || kind is LifetimeArgument || kind is TraitObject || kind is ImplTrait
}

/// Whether a node with these children is a reference that leaves its lifetime out.
pub open spec fn elides(kind: Kind, children: Seq<Form>) -> bool {
    kind is Reference && !(children.len() > 0 && children[0] is Lifetime)
}

/// The name that takes the place of `name`: `static` and the excluded names stay.
///
/// `'static` is a guarantee of how long something lives, not a borrow parameter: a field that
/// declares a static reference must not be given data that was borrowed from the input.
pub open spec fn renamed(
    name: Seq<char>,
    replacement: Seq<char>,
    exclude: Seq<Seq<char>>,
) -> Seq<char> {
    if name != "static"@ && !exclude.contains(name) {
        replacement
    } else {
        name
    }
}

/// The tree with its borrowed lifetimes renamed, and with `replacement` written where a
/// reference leaves its lifetime out.
pub open spec fn replaced(
    form: Form,
    replacement: Seq<char>,
    exclude: Seq<Seq<char>>,
) -> Form
    decreases form,
{
    match form {
        Form::Tree(kind, children) => {
            let inner = replaced_all(kind, children, replacement, exclude);
            if elides(kind, children) {
                Form::Tree(kind, seq![Form::Lifetime(replacement)] + inner)
            } else {
                Form::Tree(kind, inner)
            }
        },
        _ => form,
    }
}

/// The children of a node of the given kind, each replaced.
pub open spec fn replaced_all(
    kind: Kind,
    children: Seq<Form>,
    replacement: Seq<char>,
    exclude: Seq<Seq<char>>,
) -> Seq<Form>
    decreases children,
{
    Seq::new(
        children.len(),
        |i: int|
            if 0 <= i < children.len() {
                match children[i] {
                    Form::Lifetime(name) => if borrows(kind) {
                        Form::Lifetime(renamed(name, replacement, exclude))
                    } else {
                        Form::Lifetime(name)
                    },
                    _ => replaced(children[i], replacement, exclude),
                }
            } else {
                arbitrary()
            },
    )
}

/// The name that takes the place of `name`.
fn rename(name: &String, replacement: &str, exclude: &Vec<String>) -> (new: String)
    ensures
        new@ == renamed(name@, replacement@, texts(exclude@)),
{
    let fixed: String = "static".to_owned();
    if *name != fixed && !contains_text(exclude, name) {
        replacement.to_owned()
    } else {
        name.clone()
    }
}

/// Whether the direct lifetimes of such a node say what a type borrows from.
fn is_borrowing(kind: Kind) -> (borrowing: bool)
    ensures
        borrowing == borrows(kind),
{
    match kind {
        Kind::Reference { .. } => true,
        Kind::LifetimeArgument => true,
        Kind::TraitObject { .. } => true,
        Kind::ImplTrait => true,
        _ => false,
    }
}

impl Syntax {
    /// Whether this is a lifetime.
    pub fn is_lifetime(&self) -> (yes: bool)
        ensures
            yes == (self@ is Lifetime),
    {
        match self {
            Syntax::Lifetime(_) => true,
            _ => false,
        }
    }

    /// This type with its lifetimes replaced by `ident`, but for `'static` and those in
    /// `exclude`.
    ///
    /// A reference whose lifetime is elided gets `ident`: the implicit lifetime may be another
    /// one.
    pub fn with_lifetime_excluding(&self, ident: &str, exclude: &Vec<String>) -> (ty: Syntax)
        ensures
            ty@ == replaced(self@, ident@, texts(exclude@)),
        decreases self,
    {
        match self {
            Syntax::Lifetime(name) => Syntax::Lifetime(name.clone()),
            Syntax::Ident(name) => Syntax::Ident(name.clone()),
            Syntax::Text(text) => Syntax::Text(text.clone()),
            Syntax::Tree(kind, children) => {
                let borrowing = is_borrowing(*kind);
                let ghost all = forms(children@);
                let ghost want = replaced_all(*kind, all, ident@, texts(exclude@));
                let mut nodes: Vec<Syntax> = Vec::new();
                let ghost mut head: Seq<Form> = seq![];
                if let Kind::Reference { .. } = *kind {
                    if !(children.len() > 0 && children[0].is_lifetime()) {
                        nodes.push(Syntax::Lifetime(ident.to_owned()));
                        proof {
                            head = seq![Form::Lifetime(ident@)];
                        }
                    }
                }
                assert(forms(nodes@) =~= head);
                assert(head == if elides(*kind, all) {
                    seq![Form::Lifetime(ident@)]
                } else {
                    seq![]
                });
                let mut i: usize = 0;
                while i < children.len()
                    invariant
                        i <= children.len(),
                        self matches Syntax::Tree(k, c) && c == children && k == kind,
                        borrowing == borrows(*kind),
                        all == forms(children@),
                        want == replaced_all(*kind, all, ident@, texts(exclude@)),
                        forms(nodes@) =~= head + want.take(i as int),
                    decreases children.len() - i,
                {
                    assert(decreases_to!(self => children[i as int]));
                    assert(all[i as int] == children@[i as int]@);
                    let node = match &children[i] {
                        Syntax::Lifetime(name) => if borrowing {
                            Syntax::Lifetime(rename(name, ident, exclude))
                        } else {
                            Syntax::Lifetime(name.clone())
                        },
                        child => child.with_lifetime_excluding(ident, exclude),
                    };
                    assert(node@ == want[i as int]);
                    proof {
                        lemma_forms_push(nodes@, node);
                    }
                    nodes.push(node);
                    i += 1;
                }
                assert(want.take(i as int) =~= want);
                assert(seq![] + want =~= want);
                Syntax::Tree(*kind, nodes)
            },
        }
    }
}

/// Whether every borrowed lifetime in a tree is among the names that `kept` admits, and every
/// reference writes its lifetime.
pub open spec fn borrows_only(form: Form, kept: spec_fn(Seq<char>) -> bool) -> bool
    decreases form,
{
    match form {
        Form::Tree(kind, children) => {
            &&& !elides(kind, children)
            &&& forall|i: int|
                0 <= i < children.len() ==> match #[trigger] children[i] {
                    Form::Lifetime(name) => borrows(kind) ==> kept(name),
                    _ => borrows_only(children[i], kept),
                }
        },
        _ => true,
    }
}

/// The names that are left after a replacement: the replacement itself, the excluded names and
/// `static`.
pub open spec fn left_names(replacement: Seq<char>, exclude: Seq<Seq<char>>) -> spec_fn(
    Seq<char>,
) -> bool {
    |name: Seq<char>| name == replacement || name == "static"@ || exclude.contains(name)
}

/// After the replacement a type borrows from nothing but `replacement`, the excluded lifetimes
/// and `'static`, and no reference leaves its lifetime out.
pub proof fn replaced_borrows_only_what_is_left(
    form: Form,
    replacement: Seq<char>,
    exclude: Seq<Seq<char>>,
)
    ensures
        borrows_only(
            replaced(form, replacement, exclude),
            left_names(replacement, exclude),
        ),
    decreases form,
{
    let kept = left_names(replacement, exclude);
    if let Form::Tree(kind, children) = form {
        let inner = replaced_all(kind, children, replacement, exclude);
        let result = replaced(form, replacement, exclude);
        let shift: int = if elides(kind, children) {
            1
        } else {
            0
        };
        assert forall|i: int| 0 <= i < children.len() implies match #[trigger] inner[i] {
            Form::Lifetime(name) => borrows(kind) ==> kept(name),
            _ => borrows_only(inner[i], kept),
        } by {
            match children[i] {
                Form::Lifetime(_) => {},
                _ => {
                    replaced_borrows_only_what_is_left(children[i], replacement, exclude);
                },
            }
        }
        assert forall|i: int| 0 <= i < result->Tree_1.len() implies match
            #[trigger] result->Tree_1[i] {
            Form::Lifetime(name) => borrows(kind) ==> kept(name),
            _ => borrows_only(result->Tree_1[i], kept),
        } by {
            if i >= shift {
                assert(result->Tree_1[i] == inner[i - shift]);
            }
        }
        if shift == 0 && kind is Reference {
            assert(inner[0] is Lifetime);
        }
    }
}

/// A type that borrows from nothing but the excluded lifetimes and `'static`, and that leaves
/// no lifetime out, is not changed.
pub proof fn replacement_keeps_static_and_excluded(
    form: Form,
    replacement: Seq<char>,
    exclude: Seq<Seq<char>>,
)
    requires
        borrows_only(form, |name: Seq<char>| name == "static"@ || exclude.contains(name)),
    ensures
        replaced(form, replacement, exclude) == form,
    decreases form,
{
    let kept = |name: Seq<char>| name == "static"@ || exclude.contains(name);
    if let Form::Tree(kind, children) = form {
        let inner = replaced_all(kind, children, replacement, exclude);
        assert forall|i: int| 0 <= i < children.len() implies inner[i] == #[trigger] children[i] by {
            match children[i] {
                Form::Lifetime(name) => {
                    assert(borrows(kind) ==> kept(name));
                },
                _ => {
                    assert(borrows_only(children[i], kept));
                    replacement_keeps_static_and_excluded(children[i], replacement, exclude);
                },
            }
        }
        assert(inner =~= children);
    }
}

/// To replace twice is to replace once.
pub proof fn replacement_is_idempotent(
    form: Form,
    replacement: Seq<char>,
    exclude: Seq<Seq<char>>,
)
    ensures
        replaced(replaced(form, replacement, exclude), replacement, exclude) == replaced(
            form,
            replacement,
            exclude,
        ),
    decreases form,
{
    if let Form::Tree(kind, children) = form {
        let inner = replaced_all(kind, children, replacement, exclude);
        let once = replaced(form, replacement, exclude);
        let nodes = once->Tree_1;
        let again = replaced_all(kind, nodes, replacement, exclude);
        let shift: int = if elides(kind, children) {
            1
        } else {
            0
        };
        assert forall|i: int| 0 <= i < nodes.len() implies again[i] == #[trigger] nodes[i] by {
            if i >= shift {
                assert(nodes[i] == inner[i - shift]);
                match children[i - shift] {
                    Form::Lifetime(_) => {},
                    _ => {
                        replacement_is_idempotent(children[i - shift], replacement, exclude);
                    },
                }
            }
        }
        assert(again =~= nodes);
        if shift == 0 && kind is Reference {
            assert(inner[0] is Lifetime);
        }
    }
}

/// A type has a lifetime exactly if it contains one of some name.
pub proof fn having_is_containing_some(form: Form)
    ensures
        lifetimes_of(form).len() > 0 <==> exists|name: Seq<char>|
            lifetimes_of(form).contains(name),
{
    if lifetimes_of(form).len() > 0 {
        assert(lifetimes_of(form).contains(lifetimes_of(form)[0]));
    }
}

proof fn lemma_lifetimes_concat(first: Seq<Form>, second: Seq<Form>)
    ensures
        lifetimes_of_all(first + second) == lifetimes_of_all(first) + lifetimes_of_all(second),
    decreases second.len(),
{
    if second.len() == 0 {
        assert(first + second =~= first);
        assert(lifetimes_of_all(first) + lifetimes_of_all(second) =~= lifetimes_of_all(first));
    } else {
        lemma_lifetimes_concat(first, second.drop_last());
        assert((first + second).drop_last() =~= first + second.drop_last());
        assert((first + second).last() == second.last());
        assert(lifetimes_of_all(first + second) =~= lifetimes_of_all(first) + lifetimes_of_all(
            second,
        ));
    }
}

proof fn lemma_idents_concat(first: Seq<Form>, second: Seq<Form>)
    ensures
        idents_of_all(first + second) == idents_of_all(first) + idents_of_all(second),
    decreases second.len(),
{
    if second.len() == 0 {
        assert(first + second =~= first);
        assert(idents_of_all(first) + idents_of_all(second) =~= idents_of_all(first));
    } else {
        lemma_idents_concat(first, second.drop_last());
        assert((first + second).drop_last() =~= first + second.drop_last());
        assert((first + second).last() == second.last());
        assert(idents_of_all(first + second) =~= idents_of_all(first) + idents_of_all(second));
    }
}

/// The lifetimes of a node are those of its parts, one after the other, whatever its kind; a
/// lifetime is its own and only one, and nothing else has any.
pub proof fn lifetimes_are_those_of_the_parts(
    kind: Kind,
    first: Seq<Form>,
    second: Seq<Form>,
    part: Form,
)
    ensures
        lifetimes_of(Form::Tree(kind, first + second)) == lifetimes_of(Form::Tree(kind, first))
            + lifetimes_of(Form::Tree(kind, second)),
        lifetimes_of(Form::Tree(kind, seq![part])) == lifetimes_of(part),
        lifetimes_of(Form::Tree(kind, seq![])) == Seq::<Seq<char>>::empty(),
        part matches Form::Lifetime(name) ==> lifetimes_of(part) == seq![name],
        part is Ident || part is Text ==> lifetimes_of(part) == Seq::<Seq<char>>::empty(),
{
    lemma_lifetimes_concat(first, second);
    assert(seq![part].drop_last() =~= seq![]);
    reveal_with_fuel(lifetimes_of_all, 2);
    assert(lifetimes_of_all(seq![part]) =~= lifetimes_of(part));
}

/// The identifiers of a node are those of its parts, one after the other, whatever its kind; an
/// identifier is its own and only one, and nothing else has any.
pub proof fn identifiers_are_those_of_the_parts(
    kind: Kind,
    first: Seq<Form>,
    second: Seq<Form>,
    part: Form,
)
    ensures
        idents_of(Form::Tree(kind, first + second)) == idents_of(Form::Tree(kind, first))
            + idents_of(Form::Tree(kind, second)),
        idents_of(Form::Tree(kind, seq![part])) == idents_of(part),
        idents_of(Form::Tree(kind, seq![])) == Seq::<Seq<char>>::empty(),
        part matches Form::Ident(name) ==> idents_of(part) == seq![name],
        part is Lifetime || part is Text ==> idents_of(part) == Seq::<Seq<char>>::empty(),
{
    lemma_idents_concat(first, second);
    assert(seq![part].drop_last() =~= seq![]);
    reveal_with_fuel(idents_of_all, 2);
    assert(idents_of_all(seq![part]) =~= idents_of(part));
}

/// Whether `part` stands in `form`, at any depth.
pub open spec fn stands_in(part: Form, form: Form) -> bool
    decreases form,
{
    part == form || match form {
        Form::Tree(_, children) => exists|i: int|
            0 <= i < children.len() && stands_in(part, #[trigger] children[i]),
        _ => false,
    }
}

/// A tree has the lifetimes that stand in it, at any depth and in nodes of any kind, and no
/// others.
pub proof fn lifetimes_are_found_at_any_depth(form: Form, name: Seq<char>)
    ensures
        lifetimes_of(form).contains(name) <==> stands_in(Form::Lifetime(name), form),
    decreases form,
{
    let part = Form::Lifetime(name);
    match form {
        Form::Lifetime(own) => {
            assert(seq![own][0] == own);
        },
        Form::Tree(kind, children) => {
            assert(form->Tree_1 == children);
            lemma_lifetimes_found(children, name);
            if stands_in(part, form) {
                let i = choose|i: int|
                    0 <= i < children.len() && stands_in(part, #[trigger] children[i]);
                lifetimes_are_found_at_any_depth(children[i], name);
                assert(lifetimes_of(children[i]).contains(name));
            }
            if lifetimes_of(form).contains(name) {
                let i = choose|i: int|
                    0 <= i < children.len() && lifetimes_of(#[trigger] children[i]).contains(name);
                lifetimes_are_found_at_any_depth(children[i], name);
                assert(stands_in(part, (form->Tree_1)[i]));
            }
        },
        _ => {},
    }
}

proof fn lemma_lifetimes_found(children: Seq<Form>, name: Seq<char>)
    ensures
        lifetimes_of_all(children).contains(name) <==> exists|i: int|
            0 <= i < children.len() && lifetimes_of(#[trigger] children[i]).contains(name),
    decreases children.len(),
{
    if children.len() > 0 {
        let init = children.drop_last();
        lemma_lifetimes_found(init, name);
        lemma_contains_concat(lifetimes_of_all(init), lifetimes_of(children.last()), name);
        if lifetimes_of_all(init).contains(name) {
            let i = choose|i: int|
                0 <= i < init.len() && lifetimes_of(#[trigger] init[i]).contains(name);
            assert(lifetimes_of(children[i]).contains(name));
        }
        if exists|i: int|
            0 <= i < children.len() && lifetimes_of(#[trigger] children[i]).contains(name) {
            let i = choose|i: int|
                0 <= i < children.len() && lifetimes_of(#[trigger] children[i]).contains(name);
            if i < init.len() {
                assert(lifetimes_of(init[i]).contains(name));
            }
        }
        if lifetimes_of(children.last()).contains(name) {
            assert(lifetimes_of(children[children.len() - 1]).contains(name));
        }
    }
}

/// A tree has the identifiers that stand in it, at any depth and in nodes of any kind, and no
/// others.
pub proof fn identifiers_are_found_at_any_depth(form: Form, name: Seq<char>)
    ensures
        idents_of(form).contains(name) <==> stands_in(Form::Ident(name), form),
    decreases form,
{
    let part = Form::Ident(name);
    match form {
        Form::Ident(own) => {
            assert(seq![own][0] == own);
        },
        Form::Tree(kind, children) => {
            assert(form->Tree_1 == children);
            lemma_idents_found(children, name);
            if stands_in(part, form) {
                let i = choose|i: int|
                    0 <= i < children.len() && stands_in(part, #[trigger] children[i]);
                identifiers_are_found_at_any_depth(children[i], name);
                assert(idents_of(children[i]).contains(name));
            }
            if idents_of(form).contains(name) {
                let i = choose|i: int|
                    0 <= i < children.len() && idents_of(#[trigger] children[i]).contains(name);
                identifiers_are_found_at_any_depth(children[i], name);
                assert(stands_in(part, (form->Tree_1)[i]));
            }
        },
        _ => {},
    }
}

proof fn lemma_idents_found(children: Seq<Form>, name: Seq<char>)
    ensures
        idents_of_all(children).contains(name) <==> exists|i: int|
            0 <= i < children.len() && idents_of(#[trigger] children[i]).contains(name),
    decreases children.len(),
{
    if children.len() > 0 {
        let init = children.drop_last();
        lemma_idents_found(init, name);
        lemma_contains_concat(idents_of_all(init), idents_of(children.last()), name);
        if idents_of_all(init).contains(name) {
            let i = choose|i: int|
                0 <= i < init.len() && idents_of(#[trigger] init[i]).contains(name);
            assert(idents_of(children[i]).contains(name));
        }
        if exists|i: int|
            0 <= i < children.len() && idents_of(#[trigger] children[i]).contains(name) {
            let i = choose|i: int|
                0 <= i < children.len() && idents_of(#[trigger] children[i]).contains(name);
            if i < init.len() {
                assert(idents_of(init[i]).contains(name));
            }
        }
        if idents_of(children.last()).contains(name) {
            assert(idents_of(children[children.len() - 1]).contains(name));
        }
    }
}

/// A type mentions one of several names exactly if the identifier of one of them stands in it,
/// at any depth; what a part mentions, the whole mentions, whatever its kind.
pub proof fn mentions_are_found_at_any_depth(
    kind: Kind,
    children: Seq<Form>,
    names: Seq<Seq<char>>,
)
    ensures
        ({
            let form = Form::Tree(kind, children);
            &&& overlap(idents_of(form), names) <==> exists|name: Seq<char>|
                names.contains(name) && #[trigger] stands_in(Form::Ident(name), form)
            &&& forall|i: int|
                0 <= i < children.len() && overlap(idents_of(#[trigger] children[i]), names)
                    ==> overlap(idents_of(form), names)
        }),
{
    let form = Form::Tree(kind, children);
    lemma_mentions(form, names);
    assert forall|i: int|
        0 <= i < children.len() && overlap(
            idents_of(#[trigger] children[i]),
            names,
        ) implies overlap(idents_of(form), names) by {
        lemma_mentions(children[i], names);
        let name = choose|name: Seq<char>|
            names.contains(name) && #[trigger] stands_in(Form::Ident(name), children[i]);
        assert(stands_in(Form::Ident(name), (form->Tree_1)[i]));
        assert(stands_in(Form::Ident(name), form));
    }
}

pub(crate) proof fn lemma_mentions(form: Form, names: Seq<Seq<char>>)
    ensures
        overlap(idents_of(form), names) <==> exists|name: Seq<char>|
            names.contains(name) && #[trigger] stands_in(Form::Ident(name), form),
{
    let own = idents_of(form);
    if overlap(own, names) {
        let i = choose|i: int| 0 <= i < own.len() && names.contains(#[trigger] own[i]);
        assert(own.contains(own[i]));
        identifiers_are_found_at_any_depth(form, own[i]);
        assert(names.contains(own[i]) && stands_in(Form::Ident(own[i]), form));
    }
    if exists|name: Seq<char>|
        names.contains(name) && #[trigger] stands_in(Form::Ident(name), form) {
        let name = choose|name: Seq<char>|
            names.contains(name) && #[trigger] stands_in(Form::Ident(name), form);
        identifiers_are_found_at_any_depth(form, name);
        let i = choose|i: int| 0 <= i < own.len() && own[i] == name;
        assert(names.contains(own[i]));
    }
}

/// The replacement keeps the kind of a node and what stands in it, part by part; a reference
/// that leaves its lifetime out gets the replacement in front of its parts.
///
/// A lifetime that is a part of a reference, of a lifetime argument, of a trait object or of an
/// `impl` type becomes exactly the replacement, unless it is `'static` or excluded: these stay,
/// and so does a lifetime that is a part of anything else. Every other part is replaced in
/// turn, and names and texts stay.
pub proof fn every_borrowed_lifetime_becomes_the_replacement(
    kind: Kind,
    children: Seq<Form>,
    replacement: Seq<char>,
    exclude: Seq<Seq<char>>,
    i: int,
)
    requires
        0 <= i < children.len(),
    ensures
        ({
            let elided = match kind {
                Kind::Reference { .. } => !(children[0] is Lifetime),
                _ => false,
            };
            let borrowing = match kind {
                Kind::Reference { .. } => true,
                Kind::LifetimeArgument => true,
                Kind::TraitObject { .. } => true,
                Kind::ImplTrait => true,
                _ => false,
            };
            let shift: int = if elided {
                1
            } else {
                0
            };
            &&& replaced(Form::Tree(kind, children), replacement, exclude) matches Form::Tree(
                same_kind,
                nodes,
            ) && same_kind == kind && nodes.len() == children.len() + shift && (elided ==> nodes[0]
                == Form::Lifetime(replacement)) && nodes[i + shift] == match children[i] {
                Form::Lifetime(name) => if borrowing && name != "static"@ && !exclude.contains(
                    name,
                ) {
                    Form::Lifetime(replacement)
                } else {
                    Form::Lifetime(name)
                },
                Form::Ident(name) => Form::Ident(name),
                Form::Text(text) => Form::Text(text),
                Form::Tree(..) => replaced(children[i], replacement, exclude),
            }
        }),
{
    let form = Form::Tree(kind, children);
    assert(form->Tree_1 == children);
    let inner = replaced_all(kind, children, replacement, exclude);
    assert(inner[i] == match children[i] {
        Form::Lifetime(name) => if borrows(kind) {
            Form::Lifetime(renamed(name, replacement, exclude))
        } else {
            Form::Lifetime(name)
        },
        _ => replaced(children[i], replacement, exclude),
    });
}

/// A node without parts stays, but for a reference, which gets the replacement.
pub proof fn nodes_without_parts_stay(
    kind: Kind,
    replacement: Seq<char>,
    exclude: Seq<Seq<char>>,
)
    ensures
        replaced(Form::Tree(kind, seq![]), replacement, exclude) == match kind {
            Kind::Reference { .. } => Form::Tree(kind, seq![Form::Lifetime(replacement)]),
            _ => Form::Tree(kind, seq![]),
        },
{
    let form = Form::Tree(kind, seq![]);
    assert(replaced_all(kind, seq![], replacement, exclude) =~= seq![]);
    assert(seq![Form::Lifetime(replacement)] + seq![] =~= seq![Form::Lifetime(replacement)]);
}

/// The replacement brings in no lifetime but itself: any other one that stands in the result,
/// `'static` among them, stands in the type.
pub proof fn no_other_lifetime_is_brought_in(
    form: Form,
    replacement: Seq<char>,
    exclude: Seq<Seq<char>>,
    name: Seq<char>,
)
    requires
        name != replacement,
        stands_in(Form::Lifetime(name), replaced(form, replacement, exclude)),
    ensures
        stands_in(Form::Lifetime(name), form),
    decreases form,
{
    let part = Form::Lifetime(name);
    if let Form::Tree(kind, children) = form {
        assert(form->Tree_1 == children);
        let result = replaced(form, replacement, exclude);
        let nodes = result->Tree_1;
        let inner = replaced_all(kind, children, replacement, exclude);
        let shift: int = if elides(kind, children) {
            1
        } else {
            0
        };
        let i = choose|i: int| 0 <= i < nodes.len() && stands_in(part, #[trigger] nodes[i]);
        assert(i >= shift);
        assert(nodes[i] == inner[i - shift]);
        let child = children[i - shift];
        match child {
            Form::Lifetime(_) => {
                assert(stands_in(part, child));
            },
            _ => {
                no_other_lifetime_is_brought_in(child, replacement, exclude, name);
            },
        }
        assert(stands_in(part, (form->Tree_1)[i - shift]));
    }
}

/// The replacement changes no identifier.
pub proof fn replacement_keeps_identifiers(
    form: Form,
    replacement: Seq<char>,
    exclude: Seq<Seq<char>>,
)
    ensures
        idents_of(replaced(form, replacement, exclude)) == idents_of(form),
    decreases form,
{
    if let Form::Tree(kind, children) = form {
        let inner = replaced_all(kind, children, replacement, exclude);
        lemma_replacement_keeps_identifiers(
            kind,
            children,
            replacement,
            exclude,
            children.len() as int,
        );
        assert(inner.take(children.len() as int) =~= inner);
        assert(children.take(children.len() as int) =~= children);
        if elides(kind, children) {
            let head = Form::Lifetime(replacement);
            lemma_idents_concat(seq![head], inner);
            assert(seq![head].drop_last() =~= seq![]);
            reveal_with_fuel(idents_of_all, 2);
            assert(idents_of_all(seq![head]) =~= seq![]);
            assert(idents_of_all(seq![head] + inner) =~= idents_of_all(inner));
        }
    }
}

proof fn lemma_replacement_keeps_identifiers(
    kind: Kind,
    children: Seq<Form>,
    replacement: Seq<char>,
    exclude: Seq<Seq<char>>,
    n: int,
)
    requires
        0 <= n <= children.len(),
    ensures
        idents_of_all(replaced_all(kind, children, replacement, exclude).take(n)) == idents_of_all(
            children.take(n),
        ),
    decreases children, n,
{
    let inner = replaced_all(kind, children, replacement, exclude);
    if n > 0 {
        lemma_replacement_keeps_identifiers(kind, children, replacement, exclude, n - 1);
        assert(inner.take(n).drop_last() =~= inner.take(n - 1));
        assert(children.take(n).drop_last() =~= children.take(n - 1));
        assert(inner.take(n).last() == inner[n - 1]);
        assert(children.take(n).last() == children[n - 1]);
        match children[n - 1] {
            Form::Lifetime(_) => {
                assert(idents_of(inner[n - 1]) == idents_of(children[n - 1]));
            },
            _ => {
                replacement_keeps_identifiers(children[n - 1], replacement, exclude);
            },
        }
    } else {
        assert(inner.take(0) =~= children.take(0));
    }
}

} // verus!
