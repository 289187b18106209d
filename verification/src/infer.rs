//! The inference of `_` in the type that a field is annotated with.
//!
//! A field of type `[u8; 32]` may be annotated with `Pod<_>`. The types that the field's own
//! type is made of then take the places of the `_`, in order.

use crate::syntax::{forms, lemma_forms_push, Form, Kind, Syntax};
use std::collections::VecDeque;
use vstd::prelude::*;

verus! {

/// The forms of the queued types, front first.
pub open spec fn queue_forms(queue: VecDeque<Syntax>) -> Seq<Form> {
    forms(queue@)
}

/// Whether a node is a type named by a path that has type arguments in angle brackets.
pub open spec fn is_generic_path(form: Form) -> bool {
    match form {
        Form::Tree(Kind::PathType, parts) => exists|i: int|
            0 <= i < parts.len() && has_generic_segment(#[trigger] parts[i]),
        _ => false,
    }
}

/// Whether a node is a path of which some segment has type arguments in angle brackets.
pub open spec fn has_generic_segment(form: Form) -> bool {
    match form {
        Form::Tree(Kind::Path { .. }, segments) => exists|i: int|
            0 <= i < segments.len() && is_generic_segment(#[trigger] segments[i]),
        _ => false,
    }
}

/// Whether a node is a segment that has type arguments in angle brackets.
pub open spec fn is_generic_segment(form: Form) -> bool {
    match form {
        Form::Tree(Kind::Segment, parts) => exists|i: int|
            0 <= i < parts.len() && holds_type_argument(#[trigger] parts[i]),
        _ => false,
    }
}

/// Whether a node is a list in angle brackets that holds a type argument, and not lifetimes,
/// constants and bindings alone.
pub open spec fn holds_type_argument(form: Form) -> bool {
    match form {
        Form::Tree(Kind::AngleBracketed { .. }, args) => exists|i: int|
            0 <= i < args.len() && is_type_argument(#[trigger] args[i]),
        _ => false,
    }
}

/// Whether a node is a slice or an array.
pub open spec fn is_sequence(form: Form) -> bool {
    form matches Form::Tree(kind, _) && (kind is Slice || kind is Array)
}

/// Whether a node is a type argument.
pub open spec fn is_type_argument(form: Form) -> bool {
    form matches Form::Tree(Kind::TypeArgument, children) && children.len() == 1
}

/// The type that a type argument gives itself: the element of a slice or of an array, nothing
/// for a path with type arguments of its own, else the type.
pub open spec fn own_types(ty: Form) -> Seq<Form> {
    if is_sequence(ty) {
        let parts = ty->Tree_1;
        if parts.len() > 0 {
            seq![parts[0]]
        } else {
            seq![]
        }
    } else if is_generic_path(ty) {
        seq![]
    } else {
        seq![ty]
    }
}

/// The types that the generic arguments in a tree give, in order.
///
/// What is inside a type argument is looked at only if it gives nothing itself.
pub open spec fn collected(form: Form) -> Seq<Form>
    decreases form,
{
    match form {
        Form::Tree(_, children) => if is_type_argument(form) && own_types(children[0]).len() > 0 {
            own_types(children[0])
        } else {
            collected_all(children)
        },
        _ => seq![],
    }
}

/// The types that the generic arguments in a list of trees give.
pub open spec fn collected_all(children: Seq<Form>) -> Seq<Form>
    decreases children,
{
    if children.len() == 0 {
        seq![]
    } else {
        collected_all(children.drop_last()) + collected(children.last())
    }
}

/// The types from which `_` is inferred: those that the generic arguments of `infer` give, or
/// `infer` itself where they give none.
pub open spec fn candidates(infer: Form) -> Seq<Form> {
    if collected(infer).len() == 0 {
        seq![infer]
    } else {
        collected(infer)
    }
}

/// The tree with each `_` replaced by the next type of the queue, from left to right, and what
/// is left of the queue; `None` where the queue runs out.
///
/// A type that is put in is left as it is.
pub open spec fn filled(form: Form, queue: Seq<Form>) -> Option<(Form, Seq<Form>)>
    decreases form,
{
    match form {
        Form::Tree(kind, children) => if kind is Infer {
            if queue.len() == 0 {
                None
            } else {
                Some((queue[0], queue.drop_first()))
            }
        } else {
            match filled_all(children, queue) {
                Some((nodes, rest)) => Some((Form::Tree(kind, nodes), rest)),
                None => None,
            }
        },
        _ => Some((form, queue)),
    }
}

/// A list of trees filled from the front, one after the other.
pub open spec fn filled_all(children: Seq<Form>, queue: Seq<Form>) -> Option<
    (Seq<Form>, Seq<Form>),
>
    decreases children,
{
    if children.len() == 0 {
        Some((seq![], queue))
    } else {
        match filled(children[0], queue) {
            Some((node, left)) => match filled_all(children.drop_first(), left) {
                Some((nodes, rest)) => Some((seq![node] + nodes, rest)),
                None => None,
            },
            None => None,
        }
    }
}

/// Whether there are enough types to infer every `_` of `form` from `infer`.
pub open spec fn inferable(form: Form, infer: Form) -> bool {
    filled(form, candidates(infer)) is Some
}

/// The form with every `_` inferred from `infer`.
pub open spec fn inferred(form: Form, infer: Form) -> Form {
    filled(form, candidates(infer))->Some_0.0
}

/// Whether there is a `_` in a tree.
pub open spec fn contains_infer(form: Form) -> bool
    decreases form,
{
    match form {
        Form::Tree(kind, children) => kind is Infer || exists|i: int|
            0 <= i < children.len() && contains_infer(#[trigger] children[i]),
        _ => false,
    }
}

/// How many `_` there are in a tree.
pub open spec fn holes(form: Form) -> nat
    decreases form,
{
    match form {
        Form::Tree(kind, children) => if kind is Infer {
            1
        } else {
            holes_all(children)
        },
        _ => 0,
    }
}

/// How many `_` there are in a list of trees.
pub open spec fn holes_all(children: Seq<Form>) -> nat
    decreases children,
{
    if children.len() == 0 {
        0
    } else {
        holes(children[0]) + holes_all(children.drop_first())
    }
}

/// A type without `_` is left as it is, and takes nothing from the queue.
pub proof fn nothing_to_infer_changes_nothing(form: Form, queue: Seq<Form>)
    requires
        !contains_infer(form),
    ensures
        filled(form, queue) == Some((form, queue)),
    decreases form,
{
    if let Form::Tree(_, children) = form {
        lemma_nothing_to_infer_in_all(children, queue);
    }
}

proof fn lemma_nothing_to_infer_in_all(children: Seq<Form>, queue: Seq<Form>)
    requires
        forall|i: int| 0 <= i < children.len() ==> !contains_infer(#[trigger] children[i]),
    ensures
        filled_all(children, queue) == Some((children, queue)),
    decreases children,
{
    if children.len() == 0 {
        assert(children =~= seq![]);
    } else {
        let tail = children.drop_first();
        nothing_to_infer_changes_nothing(children[0], queue);
        assert forall|i: int| 0 <= i < tail.len() implies !contains_infer(#[trigger] tail[i]) by {
            assert(tail[i] == children[i + 1]);
        }
        lemma_nothing_to_infer_in_all(tail, queue);
        assert(seq![children[0]] + tail =~= children);
    }
}

/// Inference succeeds exactly if there are at least as many types as there are `_`. It then uses
/// one for each, in order.
pub proof fn inference_uses_one_type_for_each(form: Form, queue: Seq<Form>)
    ensures
        filled(form, queue) is Some <==> holes(form) <= queue.len(),
        filled(form, queue) matches Some((_, rest)) ==> rest == queue.skip(holes(form) as int),
    decreases form,
{
    match form {
        Form::Tree(kind, children) => {
            if kind is Infer {
                if queue.len() > 0 {
                    assert(queue.drop_first() =~= queue.skip(1));
                }
            } else {
                lemma_all_use_one_type_for_each(children, queue);
            }
        },
        _ => {
            assert(queue.skip(0) =~= queue);
        },
    }
}

proof fn lemma_all_use_one_type_for_each(children: Seq<Form>, queue: Seq<Form>)
    ensures
        filled_all(children, queue) is Some <==> holes_all(children) <= queue.len(),
        filled_all(children, queue) matches Some((nodes, rest)) ==> rest == queue.skip(
            holes_all(children) as int,
        ) && nodes.len() == children.len(),
    decreases children,
{
    if children.len() == 0 {
        assert(queue.skip(0) =~= queue);
    } else {
        inference_uses_one_type_for_each(children[0], queue);
        if let Some((_, left)) = filled(children[0], queue) {
            let tail = children.drop_first();
            lemma_all_use_one_type_for_each(tail, left);
            if let Some((_, rest)) = filled_all(tail, left) {
                assert(left.skip(holes_all(tail) as int) =~= queue.skip(
                    holes_all(children) as int,
                ));
            }
        }
    }
}

/// Whether each of the types is free of `_`.
pub open spec fn all_known(types: Seq<Form>) -> bool {
    forall|i: int| 0 <= i < types.len() ==> !contains_infer(#[trigger] types[i])
}

/// Where the types to infer from hold no `_`, none is left.
pub proof fn nothing_is_left_to_infer(form: Form, infer: Form)
    requires
        inferable(form, infer),
        all_known(candidates(infer)),
    ensures
        !contains_infer(inferred(form, infer)),
{
    lemma_nothing_left(form, candidates(infer));
}

/// What a type without `_` gives holds none either.
pub(crate) proof fn lemma_candidates_known(infer: Form)
    requires
        !contains_infer(infer),
    ensures
        all_known(candidates(infer)),
{
    lemma_collected_known(infer);
}

proof fn lemma_collected_known(form: Form)
    requires
        !contains_infer(form),
    ensures
        all_known(collected(form)),
    decreases form,
{
    if let Form::Tree(_, children) = form {
        if is_type_argument(form) && own_types(children[0]).len() > 0 {
            let ty = children[0];
            assert(!contains_infer(ty));
            if is_sequence(ty) {
                assert(!contains_infer(ty->Tree_1[0]));
            }
        } else {
            lemma_collected_all_known(children);
        }
    }
}

proof fn lemma_collected_all_known(children: Seq<Form>)
    requires
        all_known(children),
    ensures
        all_known(collected_all(children)),
    decreases children,
{
    if children.len() > 0 {
        let init = children.drop_last();
        assert forall|i: int| 0 <= i < init.len() implies !contains_infer(#[trigger] init[i]) by {
            assert(init[i] == children[i]);
        }
        lemma_collected_all_known(init);
        assert(!contains_infer(children.last()));
        lemma_collected_known(children.last());
        let before = collected_all(init);
        let all = collected_all(children);
        assert forall|i: int| 0 <= i < all.len() implies !contains_infer(#[trigger] all[i]) by {
            if i < before.len() {
                assert(all[i] == before[i]);
            } else {
                assert(all[i] == collected(children.last())[i - before.len()]);
            }
        }
    }
}

proof fn lemma_nothing_left(form: Form, queue: Seq<Form>)
    requires
        all_known(queue),
    ensures
        filled(form, queue) matches Some((node, rest)) ==> !contains_infer(node) && all_known(rest),
    decreases form,
{
    if let Form::Tree(kind, children) = form {
        if kind is Infer {
            if queue.len() > 0 {
                let tail = queue.drop_first();
                assert forall|i: int| 0 <= i < tail.len() implies !contains_infer(
                    #[trigger] tail[i],
                ) by {
                    assert(tail[i] == queue[i + 1]);
                }
            }
        } else {
            lemma_nothing_left_in_all(children, queue);
        }
    }
}

proof fn lemma_nothing_left_in_all(children: Seq<Form>, queue: Seq<Form>)
    requires
        all_known(queue),
    ensures
        filled_all(children, queue) matches Some((nodes, rest)) ==> all_known(nodes) && all_known(
            rest,
        ),
    decreases children,
{
    if children.len() > 0 {
        lemma_nothing_left(children[0], queue);
        if let Some((node, left)) = filled(children[0], queue) {
            lemma_nothing_left_in_all(children.drop_first(), left);
            if let Some((nodes, _)) = filled_all(children.drop_first(), left) {
                let all = seq![node] + nodes;
                assert forall|i: int| 0 <= i < all.len() implies !contains_infer(
                    #[trigger] all[i],
                ) by {
                    if i > 0 {
                        assert(all[i] == nodes[i - 1]);
                    }
                }
            }
        }
    }
}

/// Whether two trees differ in nothing but what stands in the places of the `_` of the first.
pub open spec fn differs_in_infer_only(form: Form, other: Form) -> bool
    decreases form,
{
    match form {
        Form::Tree(kind, children) => kind is Infer || (other matches Form::Tree(k, nodes) && k
            == kind && nodes.len() == children.len() && forall|i: int|
            0 <= i < children.len() ==> differs_in_infer_only(#[trigger] children[i], nodes[i])),
        _ => other == form,
    }
}

/// Inference changes nothing but the `_`.
pub proof fn inference_changes_nothing_else(form: Form, queue: Seq<Form>)
    ensures
        filled(form, queue) matches Some((node, _)) ==> differs_in_infer_only(form, node),
    decreases form,
{
    if let Form::Tree(kind, children) = form {
        if !(kind is Infer) {
            lemma_all_change_nothing_else(children, queue);
        }
    }
}

proof fn lemma_all_change_nothing_else(children: Seq<Form>, queue: Seq<Form>)
    ensures
        filled_all(children, queue) matches Some((nodes, _)) ==> nodes.len() == children.len()
            && forall|i: int|
            0 <= i < children.len() ==> differs_in_infer_only(#[trigger] children[i], nodes[i]),
    decreases children,
{
    if children.len() > 0 {
        let tail = children.drop_first();
        inference_changes_nothing_else(children[0], queue);
        if let Some((node, left)) = filled(children[0], queue) {
            lemma_all_change_nothing_else(tail, left);
            if let Some((nodes, _)) = filled_all(tail, left) {
                let all = seq![node] + nodes;
                assert forall|i: int| 0 <= i < children.len() implies differs_in_infer_only(
                    #[trigger] children[i],
                    all[i],
                ) by {
                    if i > 0 {
                        assert(tail[i - 1] == children[i]);
                        assert(all[i] == nodes[i - 1]);
                    }
                }
            }
        }
    }
}

fn type_argument(node: &Syntax) -> (yes: bool)
    ensures
        yes == is_type_argument(node@),
{
    match node {
        Syntax::Tree(Kind::TypeArgument, children) => {
            assert(forms(children@).len() == children@.len());
            children.len() == 1
        },
        _ => false,
    }
}

fn type_arguments(node: &Syntax) -> (yes: bool)
    ensures
        yes == holds_type_argument(node@),
{
    match node {
        Syntax::Tree(Kind::AngleBracketed { .. }, args) => {
            let mut i: usize = 0;
            while i < args.len()
                invariant
                    i <= args.len(),
                    node@ matches Form::Tree(Kind::AngleBracketed { .. }, all) && all == forms(
                        args@,
                    ),
                    forall|j: int| 0 <= j < i ==> !is_type_argument(#[trigger] forms(args@)[j]),
                decreases args.len() - i,
            {
                assert(forms(args@)[i as int] == args@[i as int]@);
                if type_argument(&args[i]) {
                    assert(is_type_argument(forms(args@)[i as int]));
                    return true;
                }
                i += 1;
            }
            false
        },
        _ => false,
    }
}

fn generic_segment(node: &Syntax) -> (yes: bool)
    ensures
        yes == is_generic_segment(node@),
{
    match node {
        Syntax::Tree(Kind::Segment, parts) => {
            let mut i: usize = 0;
            while i < parts.len()
                invariant
                    i <= parts.len(),
                    node@ matches Form::Tree(Kind::Segment, all) && all == forms(parts@),
                    forall|j: int| 0 <= j < i ==> !holds_type_argument(#[trigger] forms(parts@)[j]),
                decreases parts.len() - i,
            {
                assert(forms(parts@)[i as int] == parts@[i as int]@);
                if type_arguments(&parts[i]) {
                    assert(holds_type_argument(forms(parts@)[i as int]));
                    return true;
                }
                i += 1;
            }
            false
        },
        _ => false,
    }
}

fn generic_segments(node: &Syntax) -> (yes: bool)
    ensures
        yes == has_generic_segment(node@),
{
    match node {
        Syntax::Tree(Kind::Path { .. }, segments) => {
            let mut i: usize = 0;
            while i < segments.len()
                invariant
                    i <= segments.len(),
                    node@ matches Form::Tree(Kind::Path { .. }, all) && all == forms(segments@),
                    forall|j: int|
                        0 <= j < i ==> !is_generic_segment(#[trigger] forms(segments@)[j]),
                decreases segments.len() - i,
            {
                assert(forms(segments@)[i as int] == segments@[i as int]@);
                if generic_segment(&segments[i]) {
                    return true;
                }
                i += 1;
            }
            false
        },
        _ => false,
    }
}

fn generic_path(node: &Syntax) -> (yes: bool)
    ensures
        yes == is_generic_path(node@),
{
    match node {
        Syntax::Tree(Kind::PathType, parts) => {
            let mut i: usize = 0;
            while i < parts.len()
                invariant
                    i <= parts.len(),
                    node@ matches Form::Tree(Kind::PathType, all) && all == forms(parts@),
                    forall|j: int|
                        0 <= j < i ==> !has_generic_segment(#[trigger] forms(parts@)[j]),
                decreases parts.len() - i,
            {
                assert(forms(parts@)[i as int] == parts@[i as int]@);
                if generic_segments(&parts[i]) {
                    assert(has_generic_segment(forms(parts@)[i as int]));
                    return true;
                }
                i += 1;
            }
            false
        },
        _ => false,
    }
}

/// The generic arguments of a type, collected as it is visited.
pub struct GenericStack(pub VecDeque<Syntax>);

impl GenericStack {
    pub fn new() -> (stack: GenericStack)
        ensures
            queue_forms(stack.0) == Seq::<Form>::empty(),
    {
        let stack = GenericStack(VecDeque::new());
        assert(queue_forms(stack.0) =~= Seq::<Form>::empty());
        stack
    }

    /// Adds a type behind those collected before.
    fn push(&mut self, ty: Syntax)
        ensures
            queue_forms(final(self).0) == queue_forms(old(self).0).push(ty@),
    {
        proof {
            lemma_forms_push(self.0@, ty);
        }
        self.0.push_back(ty);
    }

    /// Collects what a type argument gives itself; whether that is anything.
    fn visit_generic_argument(&mut self, ty: &Syntax) -> (given: bool)
        ensures
            queue_forms(final(self).0) == queue_forms(old(self).0) + own_types(ty@),
            given == (own_types(ty@).len() > 0),
    {
        let ghost before = queue_forms(self.0);
        let given = match ty {
            Syntax::Tree(Kind::Slice, parts) | Syntax::Tree(Kind::Array, parts) => {
                assert(forms(parts@).len() == parts@.len());
                if parts.len() > 0 {
                    self.push(parts[0].clone());
                    true
                } else {
                    false
                }
            },
            _ => {
                if generic_path(ty) {
                    false
                } else {
                    self.push(ty.clone());
                    true
                }
            },
        };
        assert(queue_forms(self.0) =~= before + own_types(ty@));
        given
    }

    /// Collects the types that the generic arguments in a tree give.
    pub fn visit(&mut self, node: &Syntax)
        ensures
            queue_forms(final(self).0) == queue_forms(old(self).0) + collected(node@),
        decreases node,
    {
        let ghost start = queue_forms(self.0);
        let is_argument = type_argument(node);
        match node {
            Syntax::Tree(_, children) => {
                let ghost all = forms(children@);
                if is_argument && self.visit_generic_argument(&children[0]) {
                    return ;
                }
                assert(queue_forms(self.0) =~= start + collected_all(all.take(0)));
                let mut i: usize = 0;
                while i < children.len()
                    invariant
                        i <= children.len(),
                        node matches Syntax::Tree(_, c) && c == children,
                        all == forms(children@),
                        queue_forms(self.0) == start + collected_all(all.take(i as int)),
                    decreases children.len() - i,
                {
                    assert(decreases_to!(node => children[i as int]));
                    self.visit(&children[i]);
                    assert(all.take(i + 1).drop_last() =~= all.take(i as int));
                    assert(queue_forms(self.0) =~= start + collected_all(all.take(i as int + 1)));
                    i += 1;
                }
                assert(all.take(i as int) =~= all);
            },
            _ => {
                assert(start + collected(node@) =~= start);
            },
        }
    }
}

/// The types that are still to take the places of `_`.
pub struct InferGeneric(pub VecDeque<Syntax>);

impl vstd::std_specs::convert::FromSpecImpl<GenericStack> for InferGeneric {
    open spec fn obeys_from_spec() -> bool {
        true
    }

    open spec fn from_spec(stack: GenericStack) -> Self {
        InferGeneric(stack.0)
    }
}

impl From<GenericStack> for InferGeneric {
    fn from(stack: GenericStack) -> (infer: Self) {
        InferGeneric(stack.0)
    }
}

impl InferGeneric {
    /// Takes the next type.
    fn pop(&mut self) -> (ty: Option<Syntax>)
        ensures
            match ty {
                Some(ty) => {
                    &&& queue_forms(old(self).0).len() > 0
                    &&& ty@ == queue_forms(old(self).0)[0]
                    &&& queue_forms(final(self).0) == queue_forms(old(self).0).drop_first()
                },
                None => queue_forms(old(self).0).len() == 0,
            },
    {
        let ghost before = self.0@;
        let ty = self.0.pop_front();
        proof {
            if before.len() > 0 {
                assert(forms(self.0@) =~= forms(before).drop_first());
            }
        }
        ty
    }

    /// The tree with each `_` replaced by the next type; `None` where there are not enough.
    pub fn fill(&mut self, node: &Syntax) -> (result: Option<Syntax>)
        ensures
            match (result, filled(node@, queue_forms(old(self).0))) {
                (Some(filling), Some((form, rest))) => {
                    &&& filling@ == form
                    &&& queue_forms(final(self).0) == rest
                },
                (None, None) => true,
                _ => false,
            },
        decreases node,
    {
        match node {
            Syntax::Tree(Kind::Infer, _) => self.pop(),
            Syntax::Tree(kind, children) => {
                let ghost all = forms(children@);
                let ghost whole = filled_all(all, queue_forms(self.0));
                let mut nodes: Vec<Syntax> = Vec::new();
                let mut i: usize = 0;
                assert(all.skip(0) =~= all);
                assert(forms(nodes@) =~= seq![]);
                proof {
                    if let Some((rest, _)) = whole {
                        assert(seq![] + rest =~= rest);
                    }
                }
                while i < children.len()
                    invariant
                        i <= children.len(),
                        node matches Syntax::Tree(_, c) && c == children,
                        all == forms(children@),
                        filled(node@, queue_forms(old(self).0)) == match whole {
                            Some((done, left)) => Some((Form::Tree(*kind, done), left)),
                            None => None,
                        },
                        match filled_all(all.skip(i as int), queue_forms(self.0)) {
                            Some((rest, left)) => whole == Some((forms(nodes@) + rest, left)),
                            None => whole is None,
                        },
                    decreases children.len() - i,
                {
                    assert(decreases_to!(node => children[i as int]));
                    assert(all.skip(i as int)[0] == children@[i as int]@);
                    assert(all.skip(i as int).drop_first() =~= all.skip(i + 1));
                    let ghost done = forms(nodes@);
                    let filling = match self.fill(&children[i]) {
                        Some(filling) => filling,
                        None => {
                            return None;
                        },
                    };
                    proof {
                        lemma_forms_push(nodes@, filling);
                        if let Some((rest, _)) = filled_all(
                            all.skip(i + 1),
                            queue_forms(self.0),
                        ) {
                            assert(done + (seq![filling@] + rest) =~= done.push(filling@) + rest);
                        }
                    }
                    nodes.push(filling);
                    i += 1;
                }
                assert(all.skip(i as int) =~= seq![]);
                assert(forms(nodes@) + seq![] =~= forms(nodes@));
                Some(Syntax::Tree(*kind, nodes))
            },
            _ => Some(node.clone()),
        }
    }
}

impl Syntax {
    /// This type with every `_` replaced by the generic arguments of `infer`, or by `infer`
    /// itself where it has none; `None` where there are fewer types than `_`.
    pub fn try_with_infer(&self, infer: &Syntax) -> (ty: Option<Syntax>)
        ensures
            ty is Some <==> inferable(self@, infer@),
            ty matches Some(ty) ==> ty@ == inferred(self@, infer@),
    {
        let mut stack = GenericStack::new();
        stack.visit(infer);
        assert(queue_forms(stack.0) =~= collected(infer@));
        if stack.0.len() == 0 {
            stack.push(infer.clone());
        }
        assert(queue_forms(stack.0) =~= candidates(infer@));
        let mut types = InferGeneric::from(stack);
        types.fill(self)
    }

    /// This type with every `_` replaced by the generic arguments of `infer`, or by `infer`
    /// itself where it has none.
    ///
    /// There must be a type for each `_`.
    pub fn with_infer(&self, infer: &Syntax) -> (ty: Syntax)
        requires
            inferable(self@, infer@),
        ensures
            ty@ == inferred(self@, infer@),
    {
        self.try_with_infer(infer).unwrap()
    }
}

/// A `_` is one wherever it stands: a tree holds a `_` if it is one or if a part of it holds one,
/// whatever its kind.
pub proof fn placeholders_are_found_at_any_depth(kind: Kind, children: Seq<Form>, i: int)
    requires
        0 <= i < children.len(),
    ensures
        contains_infer(Form::Tree(Kind::Infer, children)),
        contains_infer(children[i]) ==> contains_infer(Form::Tree(kind, children)),
{
    let form = Form::Tree(kind, children);
    let own = form->Tree_1;
    assert(own[i] == children[i]);
}

/// What is collected from parts is collected from each of them, in order, whatever they are part
/// of; only a type argument may give itself.
pub proof fn types_are_collected_in_order(
    kind: Kind,
    first: Seq<Form>,
    second: Seq<Form>,
    part: Form,
)
    requires
        kind != Kind::TypeArgument,
    ensures
        collected(Form::Tree(kind, first + second)) == collected(Form::Tree(kind, first))
            + collected(Form::Tree(kind, second)),
        collected(Form::Tree(kind, seq![part])) == collected(part),
        collected(Form::Tree(kind, seq![])) == Seq::<Form>::empty(),
        !(part is Tree) ==> collected(part) == Seq::<Form>::empty(),
{
    lemma_collected_concat(first, second);
    assert(seq![part].drop_last() =~= seq![]);
    reveal_with_fuel(collected_all, 2);
    assert(collected_all(seq![part]) =~= collected(part));
}

proof fn lemma_holes_concat(first: Seq<Form>, second: Seq<Form>)
    ensures
        holes_all(first + second) == holes_all(first) + holes_all(second),
    decreases first.len(),
{
    if first.len() == 0 {
        assert(first + second =~= second);
    } else {
        lemma_holes_concat(first.drop_first(), second);
        assert((first + second).drop_first() =~= first.drop_first() + second);
        assert((first + second)[0] == first[0]);
    }
}

proof fn lemma_holes_one(form: Form)
    ensures
        holes_all(seq![form]) == holes(form),
{
    assert(seq![form].drop_first() =~= seq![]);
    assert(seq![form][0] == form);
    reveal_with_fuel(holes_all, 2);
}

proof fn lemma_collected_concat(first: Seq<Form>, second: Seq<Form>)
    ensures
        collected_all(first + second) == collected_all(first) + collected_all(second),
    decreases second.len(),
{
    if second.len() == 0 {
        assert(first + second =~= first);
        assert(collected_all(first) + collected_all(second) =~= collected_all(first));
    } else {
        lemma_collected_concat(first, second.drop_last());
        assert((first + second).drop_last() =~= first + second.drop_last());
        assert((first + second).last() == second.last());
        assert(collected_all(first + second) =~= collected_all(first) + collected_all(second));
    }
}

/// A type argument.
pub open spec fn argument(ty: Form) -> Form {
    Form::Tree(Kind::TypeArgument, seq![ty])
}

/// A slice or an array as a type argument gives its element.
pub proof fn sequences_give_their_element(element: Form, rest: Seq<Form>)
    ensures
        collected(argument(Form::Tree(Kind::Slice, seq![element] + rest))) == seq![element],
        collected(argument(Form::Tree(Kind::Array, seq![element] + rest))) == seq![element],
{
    assert(seq![Form::Tree(Kind::Slice, seq![element] + rest)][0] == Form::Tree(
        Kind::Slice,
        seq![element] + rest,
    ));
}

/// A type argument that is no slice, no array and no path gives exactly itself: a reference with
/// its lifetime, a tuple as a whole.
pub proof fn other_types_give_themselves(kind: Kind, parts: Seq<Form>)
    requires
        kind != Kind::Slice,
        kind != Kind::Array,
        kind != Kind::PathType,
    ensures
        collected(argument(Form::Tree(kind, parts))) == seq![Form::Tree(kind, parts)],
{
    let ty = Form::Tree(kind, parts);
    assert(seq![ty][0] == ty);
}

/// A type named by a path gives exactly itself as a type argument if none of the lists in angle
/// brackets of its segments holds a type argument, and else what these arguments give.
pub proof fn paths_give_themselves_or_their_arguments(parts: Seq<Form>)
    ensures
        ({
            let path = Form::Tree(Kind::PathType, parts);
            let generic = exists|p: int, i: int, j: int, k: int| is_argument_at(parts, p, i, j, k);
            collected(argument(path)) == if generic {
                collected(path)
            } else {
                seq![path]
            }
        }),
{
    let path = Form::Tree(Kind::PathType, parts);
    let own_parts = path->Tree_1;
    assert(seq![path][0] == path);
    if is_generic_path(path) {
        let p = choose|p: int| 0 <= p < parts.len() && has_generic_segment(#[trigger] parts[p]);
        let segments = parts[p]->Tree_1;
        let i = choose|i: int| 0 <= i < segments.len() && is_generic_segment(#[trigger] segments[i]);
        let own = segments[i]->Tree_1;
        let j = choose|j: int| 0 <= j < own.len() && holds_type_argument(#[trigger] own[j]);
        let args = own[j]->Tree_1;
        let k = choose|k: int| 0 <= k < args.len() && is_type_argument(#[trigger] args[k]);
        assert(is_argument_at(parts, p, i, j, k));
        assert(seq![path].drop_last() =~= seq![]);
        reveal_with_fuel(collected_all, 2);
        assert(collected_all(seq![path]) =~= collected(path));
    } else if exists|p: int, i: int, j: int, k: int| is_argument_at(parts, p, i, j, k) {
        let (p, i, j, k) = choose|p: int, i: int, j: int, k: int|
            is_argument_at(parts, p, i, j, k);
        let segments = parts[p]->Tree_1;
        let own = segments[i]->Tree_1;
        let args = own[j]->Tree_1;
        assert(is_type_argument(args[k]));
        assert(holds_type_argument(own[j]));
        assert(is_generic_segment(segments[i]));
        assert(has_generic_segment(own_parts[p]));
        assert(is_generic_path(path));
    }
}

/// Whether the `k`-th entry of a list in angle brackets, which is the `j`-th part of the `i`-th
/// segment of the path that is the `p`-th part, is a type argument.
pub open spec fn is_argument_at(parts: Seq<Form>, p: int, i: int, j: int, k: int) -> bool {
    &&& 0 <= p < parts.len()
    &&& parts[p] matches Form::Tree(Kind::Path { .. }, segments) && 0 <= i < segments.len() && (
    segments[i] matches Form::Tree(Kind::Segment, own) && 0 <= j < own.len() && (own[j]
        matches Form::Tree(Kind::AngleBracketed { .. }, args) && 0 <= k < args.len() && (args[k]
        matches Form::Tree(Kind::TypeArgument, of) && of.len() == 1)))
}

/// The `_` of parts are counted in each of them, whatever they are part of.
pub proof fn placeholders_are_counted_in_every_part(
    kind: Kind,
    first: Seq<Form>,
    second: Seq<Form>,
    part: Form,
)
    requires
        kind != Kind::Infer,
    ensures
        holes(Form::Tree(kind, first + second)) == holes(Form::Tree(kind, first)) + holes(
            Form::Tree(kind, second),
        ),
        holes(Form::Tree(kind, seq![part])) == holes(part),
        holes(Form::Tree(kind, seq![])) == 0,
        holes(Form::Tree(Kind::Infer, first)) == 1,
        !(part is Tree) ==> holes(part) == 0,
{
    lemma_holes_concat(first, second);
    lemma_holes_one(part);
}

/// `Name<..>` with the arguments.
pub open spec fn generic_type(name: Seq<char>, args: Seq<Form>) -> Form {
    Form::Tree(
        Kind::PathType,
        seq![
            Form::Tree(
                Kind::Path { leading_colon: false },
                seq![
                    Form::Tree(
                        Kind::Segment,
                        seq![
                            Form::Ident(name),
                            Form::Tree(Kind::AngleBracketed { turbofish: false }, args),
                        ],
                    ),
                ],
            ),
        ],
    )
}

/// What is collected from `Name<..>` is what its arguments give.
proof fn lemma_collected_from_generic(name: Seq<char>, args: Seq<Form>)
    ensures
        collected(generic_type(name, args)) == collected_all(args),
{
    let list = Form::Tree(Kind::AngleBracketed { turbofish: false }, args);
    let segment = Form::Tree(Kind::Segment, seq![Form::Ident(name), list]);
    let path = Form::Tree(Kind::Path { leading_colon: false }, seq![segment]);
    assert(seq![Form::Ident(name), list] =~= seq![Form::Ident(name)] + seq![list]);
    types_are_collected_in_order(Kind::Segment, seq![Form::Ident(name)], seq![list], list);
    types_are_collected_in_order(Kind::Segment, seq![], seq![], Form::Ident(name));
    assert(Seq::<Form>::empty() + collected(list) =~= collected(list));
    types_are_collected_in_order(Kind::Path { leading_colon: false }, seq![], seq![], segment);
    types_are_collected_in_order(Kind::PathType, seq![], seq![], path);
}

/// Whether a type is no slice, no array and no path with type arguments of its own.
pub open spec fn is_plain(ty: Form) -> bool {
    match ty {
        Form::Tree(Kind::Slice, _) => false,
        Form::Tree(Kind::Array, _) => false,
        Form::Tree(Kind::PathType, parts) => !exists|p: int, i: int, j: int, k: int|
            is_argument_at(parts, p, i, j, k),
        _ => true,
    }
}

/// Arguments that are no slices, no arrays and no paths with type arguments of their own take
/// the places of as many `_`, in order and exactly as they are, references with their lifetimes:
/// `Other<_, .., _>` filled from `Name<a, .., z>` is `Other<a, .., z>`.
pub proof fn arguments_take_the_places_of_placeholders(
    name: Seq<char>,
    other: Seq<char>,
    types: Seq<Form>,
)
    requires
        types.len() > 0,
        forall|i: int| 0 <= i < types.len() ==> is_plain(#[trigger] types[i]),
    ensures
        collected(generic_type(name, Seq::new(types.len(), |i: int| argument(types[i])))) == types,
        ({
            let given = Seq::new(types.len(), |i: int| argument(types[i]));
            let open = Seq::new(
                types.len(),
                |i: int| argument(Form::Tree(Kind::Infer, seq![])),
            );
            let infer = generic_type(name, given);
            &&& inferable(generic_type(other, open), infer)
            &&& inferred(generic_type(other, open), infer) == generic_type(other, given)
        }),
{
    let given = Seq::new(types.len(), |i: int| argument(types[i]));
    let open = Seq::new(types.len(), |i: int| argument(Form::Tree(Kind::Infer, seq![])));
    lemma_collected_from_generic(name, given);
    assert forall|i: int| 0 <= i < types.len() implies collected(#[trigger] given[i]) == seq![
        types[i],
    ] by {
        lemma_plain_gives_itself(types[i]);
    }
    lemma_collected_arguments(types, given);
    assert(candidates(generic_type(name, given)) == types);
    lemma_filled_arguments(open, types, given);
    lemma_filled_generic(other, open, types);
}

proof fn lemma_plain_gives_itself(ty: Form)
    requires
        is_plain(ty),
    ensures
        collected(argument(ty)) == seq![ty],
{
    match ty {
        Form::Tree(kind, parts) => {
            if kind is PathType {
                paths_give_themselves_or_their_arguments(parts);
            } else {
                other_types_give_themselves(kind, parts);
            }
        },
        _ => {
            assert(seq![ty][0] == ty);
        },
    }
}

proof fn lemma_collected_arguments(types: Seq<Form>, given: Seq<Form>)
    requires
        types.len() == given.len(),
        forall|i: int| 0 <= i < types.len() ==> collected(#[trigger] given[i]) == seq![types[i]],
    ensures
        collected_all(given) == types,
    decreases types.len(),
{
    if types.len() == 0 {
        assert(collected_all(given) =~= types);
    } else {
        let init = given.drop_last();
        assert forall|i: int| 0 <= i < init.len() implies collected(#[trigger] init[i]) == seq![
            types.drop_last()[i],
        ] by {
            assert(init[i] == given[i]);
        }
        lemma_collected_arguments(types.drop_last(), init);
        assert(given.last() == given[types.len() - 1]);
        assert(types.drop_last() + seq![types[types.len() - 1]] =~= types);
    }
}

proof fn lemma_filled_arguments(open: Seq<Form>, types: Seq<Form>, given: Seq<Form>)
    requires
        open.len() == types.len() == given.len(),
        forall|i: int|
            0 <= i < open.len() ==> #[trigger] open[i] == argument(
                Form::Tree(Kind::Infer, seq![]),
            ),
        forall|i: int| 0 <= i < given.len() ==> #[trigger] given[i] == argument(types[i]),
    ensures
        filled_all(open, types) == Some((given, Seq::<Form>::empty())),
    decreases open.len(),
{
    if open.len() == 0 {
        assert(given =~= seq![]);
        assert(types =~= seq![]);
    } else {
        let hole = Form::Tree(Kind::Infer, seq![]);
        assert(seq![hole].drop_first() =~= seq![]);
        reveal_with_fuel(filled_all, 3);
        reveal_with_fuel(filled, 3);
        assert(filled(hole, types) == Some((types[0], types.drop_first())));
        assert(filled_all(seq![hole], types) == Some((seq![types[0]], types.drop_first()))) by {
            assert(seq![hole][0] == hole);
            assert(seq![types[0]] + seq![] =~= seq![types[0]]);
        }
        assert(filled(open[0], types) == Some((given[0], types.drop_first())));
        lemma_filled_arguments(open.drop_first(), types.drop_first(), given.drop_first());
        assert(seq![given[0]] + given.drop_first() =~= given);
    }
}

/// Filling `Name<..>` is filling its arguments.
proof fn lemma_filled_generic(name: Seq<char>, args: Seq<Form>, queue: Seq<Form>)
    ensures
        filled(generic_type(name, args), queue) == match filled_all(args, queue) {
            Some((nodes, rest)) => Some((generic_type(name, nodes), rest)),
            None => None,
        },
{
    let list = Form::Tree(Kind::AngleBracketed { turbofish: false }, args);
    let pair = seq![Form::Ident(name), list];
    let segment = Form::Tree(Kind::Segment, pair);
    let path = Form::Tree(Kind::Path { leading_colon: false }, seq![segment]);
    lemma_filled_one(list, queue);
    assert(pair.drop_first() =~= seq![list]);
    assert(pair[0] == Form::Ident(name));
    assert(filled(Form::Ident(name), queue) == Some((Form::Ident(name), queue)));
    if let Some((nodes, rest)) = filled(list, queue) {
        assert(seq![Form::Ident(name)] + seq![nodes] =~= seq![Form::Ident(name), nodes]);
    }
    lemma_filled_one(segment, queue);
    lemma_filled_one(path, queue);
}

proof fn lemma_filled_one(form: Form, queue: Seq<Form>)
    ensures
        filled_all(seq![form], queue) == match filled(form, queue) {
            Some((node, rest)) => Some((seq![node], rest)),
            None => None,
        },
{
    assert(seq![form].drop_first() =~= seq![]);
    assert(seq![form][0] == form);
    reveal_with_fuel(filled_all, 2);
    if let Some((node, rest)) = filled(form, queue) {
        assert(filled_all(seq![], rest) == Some((Seq::<Form>::empty(), rest)));
        assert(seq![node] + seq![] =~= seq![node]);
    }
}

/// A type without generic arguments that give anything is inferred as a whole.
pub proof fn types_without_arguments_are_inferred_whole(infer: Form, children: Seq<Form>)
    ensures
        collected(infer).len() == 0 ==> inferred(Form::Tree(Kind::Infer, children), infer)
            == infer,
        collected(infer).len() > 0 ==> inferred(Form::Tree(Kind::Infer, children), infer)
            == collected(infer)[0],
        inferable(Form::Tree(Kind::Infer, children), infer),
{
}

/// What stands in `result` where `form` has its `_`, from left to right.
pub open spec fn put_in(form: Form, result: Form) -> Seq<Form>
    decreases form,
{
    match form {
        Form::Tree(Kind::Infer, _) => seq![result],
        Form::Tree(_, children) => match result {
            Form::Tree(_, nodes) => put_in_all(children, nodes),
            _ => seq![],
        },
        _ => seq![],
    }
}

/// What stands in a list of results where the trees have their `_`.
pub open spec fn put_in_all(children: Seq<Form>, nodes: Seq<Form>) -> Seq<Form>
    decreases children,
{
    if children.len() == 0 || nodes.len() != children.len() {
        seq![]
    } else {
        put_in(children[0], nodes[0]) + put_in_all(children.drop_first(), nodes.drop_first())
    }
}

/// The types that take the places of the `_` are those of the queue, in order and as they are,
/// and what is left of the queue is the others.
pub proof fn types_are_put_in_in_order(form: Form, queue: Seq<Form>)
    ensures
        filled(form, queue) matches Some((node, rest)) ==> put_in(form, node) + rest == queue,
        filled(form, queue) is None ==> queue.len() < holes(form),
    decreases form,
{
    inference_uses_one_type_for_each(form, queue);
    match form {
        Form::Tree(kind, children) => {
            if kind is Infer {
                if queue.len() > 0 {
                    assert(seq![queue[0]] + queue.drop_first() =~= queue);
                }
            } else {
                lemma_all_are_put_in_in_order(children, queue);
            }
        },
        _ => {
            assert(seq![] + queue =~= queue);
        },
    }
}

proof fn lemma_all_are_put_in_in_order(children: Seq<Form>, queue: Seq<Form>)
    ensures
        filled_all(children, queue) matches Some((nodes, rest)) ==> nodes.len() == children.len()
            && put_in_all(children, nodes) + rest == queue,
    decreases children,
{
    if children.len() == 0 {
        assert(seq![] + queue =~= queue);
    } else {
        let tail = children.drop_first();
        types_are_put_in_in_order(children[0], queue);
        if let Some((node, left)) = filled(children[0], queue) {
            lemma_all_are_put_in_in_order(tail, left);
            if let Some((nodes, rest)) = filled_all(tail, left) {
                let all = seq![node] + nodes;
                assert(all.drop_first() =~= nodes);
                assert(put_in_all(children, all) == put_in(children[0], node) + put_in_all(
                    tail,
                    nodes,
                ));
                assert(put_in_all(children, all) + rest =~= put_in(children[0], node) + (
                put_in_all(tail, nodes) + rest));
            }
        }
    }
}

/// Inference is possible exactly if there are no more `_` than types that the generic arguments
/// give, or than the one type itself where they give none. Then these types take the places of
/// the `_`, in order and as they are, and nothing else is changed.
pub proof fn placeholders_are_inferred_in_order(form: Form, infer: Form)
    ensures
        ({
            let types = if collected(infer).len() == 0 {
                seq![infer]
            } else {
                collected(infer)
            };
            &&& inferable(form, infer) <==> holes(form) <= types.len()
            &&& inferable(form, infer) ==> {
                &&& put_in(form, inferred(form, infer)) == types.take(holes(form) as int)
                &&& differs_in_infer_only(form, inferred(form, infer))
            }
        }),
{
    let types = candidates(infer);
    types_are_put_in_in_order(form, types);
    inference_uses_one_type_for_each(form, types);
    inference_changes_nothing_else(form, types);
    if let Some((node, rest)) = filled(form, types) {
        assert(put_in(form, node) =~= types.take(holes(form) as int));
    }
}

/// Trees differ in their `_` only if they have the same kind and the same number of parts, of
/// which each differs in its `_` only; names and texts are the same.
pub proof fn only_placeholders_differ(form: Form, node: Form, i: int)
    requires
        differs_in_infer_only(form, node),
        !(form matches Form::Tree(Kind::Infer, _)),
    ensures
        match (form, node) {
            (Form::Tree(kind, children), Form::Tree(same_kind, nodes)) => {
                &&& same_kind == kind
                &&& nodes.len() == children.len()
                &&& 0 <= i < nodes.len() ==> differs_in_infer_only(children[i], nodes[i])
            },
            _ => node == form,
        },
{
    if let (Form::Tree(_, children), Form::Tree(_, nodes)) = (form, node) {
        if 0 <= i < nodes.len() {
            assert((form->Tree_1)[i] == children[i]);
        }
    }
}

} // verus!
