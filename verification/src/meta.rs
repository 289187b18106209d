//! What is known of the serialized form of a type ahead of time, and how the fields of a
//! declaration are grouped by it.

use vstd::prelude::*;

verus! {

/// What is known of the serialized form of a type ahead of time.
#[derive(Debug, Clone, Copy, PartialEq, Eq, Structural)]
pub enum TypeMeta {
    /// Every value is serialized to `size` bytes.
    Static {
        size: usize,
        /// Whether the serialized form is the form in memory.
        zero_copy: bool,
    },
    /// The size depends on the value.
    Dynamic,
}

/// The number of bytes that a type contributes as far as it is static.
pub open spec fn size_of_meta(meta: TypeMeta) -> nat {
    match meta {
        TypeMeta::Static { size, .. } => size as nat,
        TypeMeta::Dynamic => 0,
    }
}

/// The sum of the static sizes.
pub open spec fn total_size(metas: Seq<TypeMeta>) -> nat
    decreases metas.len(),
{
    if metas.len() == 0 {
        0
    } else {
        total_size(metas.drop_last()) + size_of_meta(metas.last())
    }
}

/// Whether all of the types are static.
pub open spec fn all_static(metas: Seq<TypeMeta>) -> bool {
    forall|i: int| 0 <= i < metas.len() ==> (#[trigger] metas[i]) is Static
}

/// Whether all of the types are static and zero-copy.
pub open spec fn all_zero_copy(metas: Seq<TypeMeta>) -> bool {
    forall|i: int| 0 <= i < metas.len() ==> is_zero_copy(#[trigger] metas[i])
}

/// Whether a type is static and zero-copy.
pub open spec fn is_zero_copy(meta: TypeMeta) -> bool {
    meta matches TypeMeta::Static { zero_copy, .. } && zero_copy
}

/// The metadata of several types one behind the other: static if all of them are, with the sum
/// of the sizes, and zero-copy if all of them are; else dynamic.
pub open spec fn joined(metas: Seq<TypeMeta>) -> TypeMeta {
    if all_static(metas) {
        TypeMeta::Static { size: total_size(metas) as usize, zero_copy: all_zero_copy(metas) }
    } else {
        TypeMeta::Dynamic
    }
}

/// The total of a part is no more than the total of the whole.
pub(crate) proof fn lemma_total_size_prefix(metas: Seq<TypeMeta>, n: int)
    requires
        0 <= n <= metas.len(),
    ensures
        total_size(metas.take(n)) <= total_size(metas),
    decreases metas.len(),
{
    if n == metas.len() {
        assert(metas.take(n) =~= metas);
    } else {
        lemma_total_size_prefix(metas.drop_last(), n);
        assert(metas.drop_last().take(n) =~= metas.take(n));
    }
}

/// The total of two lists is the sum of their totals.
pub(crate) proof fn lemma_total_size_concat(a: Seq<TypeMeta>, b: Seq<TypeMeta>)
    ensures
        total_size(a + b) == total_size(a) + total_size(b),
    decreases b.len(),
{
    if b.len() == 0 {
        assert(a + b =~= a);
    } else {
        lemma_total_size_concat(a, b.drop_last());
        assert((a + b).drop_last() =~= a + b.drop_last());
    }
}

impl TypeMeta {
    /// The metadata of several types one behind the other.
    ///
    /// The sizes must add up to no more than a `usize` holds.
    pub fn join_types(metas: &Vec<TypeMeta>) -> (meta: TypeMeta)
        requires
            all_static(metas@) ==> total_size(metas@) <= usize::MAX,
        ensures
            meta == joined(metas@),
    {
        let mut j: usize = 0;
        while j < metas.len()
            invariant
                j <= metas.len(),
                forall|k: int| 0 <= k < j ==> (#[trigger] metas@[k]) is Static,
            decreases metas.len() - j,
        {
            if let TypeMeta::Dynamic = metas[j] {
                assert(metas@[j as int] is Dynamic);
                return TypeMeta::Dynamic;
            }
            j += 1;
        }
        let mut size: usize = 0;
        let mut zero_copy: bool = true;
        let mut i: usize = 0;
        while i < metas.len()
            invariant
                i <= metas.len(),
                all_static(metas@),
                total_size(metas@) <= usize::MAX,
                size == total_size(metas@.take(i as int)),
                zero_copy == all_zero_copy(metas@.take(i as int)),
            decreases metas.len() - i,
        {
            proof {
                lemma_total_size_prefix(metas@, i + 1);
                assert(metas@.take(i + 1).drop_last() =~= metas@.take(i as int));
                assert(metas@[i as int] is Static);
            }
            if let TypeMeta::Static { size: s, zero_copy: z } = metas[i] {
                size = size + s;
                let ghost before = metas@.take(i as int);
                let ghost after = metas@.take(i + 1);
                proof {
                    assert(after == before.push(metas@[i as int]));
                    assert(after[i as int] == metas@[i as int]);
                    if all_zero_copy(after) {
                        assert forall|k: int| 0 <= k < before.len() implies is_zero_copy(
                            #[trigger] before[k],
                        ) by {
                            assert(after[k] == before[k]);
                        }
                    }
                }
                zero_copy = zero_copy && z;
            }
            i += 1;
        }
        assert(metas@.take(i as int) =~= metas@);
        TypeMeta::Static { size, zero_copy }
    }

    /// This metadata, zero-copy only if `keep` allows it.
    pub fn keep_zero_copy(self, keep: bool) -> (meta: TypeMeta)
        ensures
            meta == with_zero_copy(self, keep),
    {
        match self {
            TypeMeta::Static { size, zero_copy } => TypeMeta::Static {
                size,
                zero_copy: zero_copy && keep,
            },
            TypeMeta::Dynamic => TypeMeta::Dynamic,
        }
    }
}

/// The metadata, zero-copy only if `keep` allows it.
pub open spec fn with_zero_copy(meta: TypeMeta, keep: bool) -> TypeMeta {
    match meta {
        TypeMeta::Static { size, zero_copy } => TypeMeta::Static {
            size,
            zero_copy: zero_copy && keep,
        },
        TypeMeta::Dynamic => TypeMeta::Dynamic,
    }
}

/// The metadata of a struct, from that of its fields.
///
/// Padding is never serialized: a struct is zero-copy only if its serialized size is its size
/// in memory, if its layout is fixed, and if all of its fields are.
pub open spec fn struct_meta(
    fields: Seq<TypeMeta>,
    size_in_memory: usize,
    eligible: bool,
) -> TypeMeta {
    match joined(fields) {
        TypeMeta::Static { size, zero_copy } => TypeMeta::Static {
            size,
            zero_copy: size == size_in_memory && eligible && zero_copy,
        },
        TypeMeta::Dynamic => TypeMeta::Dynamic,
    }
}

/// The metadata of a struct whose unskipped fields have the given metadata.
pub fn join_struct(fields: &Vec<TypeMeta>, size_in_memory: usize, eligible: bool) -> (meta:
    TypeMeta)
    requires
        all_static(fields@) ==> total_size(fields@) <= usize::MAX,
    ensures
        meta == struct_meta(fields@, size_in_memory, eligible),
{
    match TypeMeta::join_types(fields) {
        TypeMeta::Static { size, zero_copy } => {
            let no_padding: bool = size == size_in_memory;
            TypeMeta::Static { size, zero_copy: no_padding && eligible && zero_copy }
        },
        TypeMeta::Dynamic => TypeMeta::Dynamic,
    }
}

/// Whether all of the types are static and of the same size.
pub open spec fn same_size(metas: Seq<TypeMeta>) -> bool {
    forall|i: int|
        0 <= i < metas.len() ==> match (#[trigger] metas[i], metas[0]) {
            (TypeMeta::Static { size: s1, .. }, TypeMeta::Static { size: s2, .. }) => s1 == s2,
            _ => false,
        }
}

/// The metadata of an enum, from that of its variants: that of the first variant if all are
/// static and of the same size, else dynamic.
pub open spec fn chosen(variants: Seq<TypeMeta>) -> TypeMeta
    recommends
        variants.len() > 0,
{
    if same_size(variants) {
        variants[0]
    } else {
        TypeMeta::Dynamic
    }
}

/// The metadata of an enum whose variants have the given metadata.
pub fn choose_variant(variants: &Vec<TypeMeta>) -> (meta: TypeMeta)
    requires
        variants@.len() > 0,
    ensures
        meta == chosen(variants@),
{
    if variants.len() == 1 {
        assert(same_size(variants@) <==> variants@[0] is Static);
        return variants[0];
    }
    let mut i: usize = 1;
    while i < variants.len()
        invariant
            1 <= i <= variants.len(),
            variants.len() > 1,
            forall|k: int|
                1 <= k < i ==> match (#[trigger] variants@[k], variants@[0]) {
                    (
                        TypeMeta::Static { size: s1, .. },
                        TypeMeta::Static { size: s2, .. },
                    ) => s1 == s2,
                    _ => false,
                },
        decreases variants.len() - i,
    {
        let same: bool = match (variants[i], variants[0]) {
            (TypeMeta::Static { size: s1, .. }, TypeMeta::Static { size: s2, .. }) => s1 == s2,
            _ => false,
        };
        if !same {
            assert(!same_size(variants@)) by {
                let _ = variants@[i as int];
            }
            return TypeMeta::Dynamic;
        }
        i += 1;
    }
    assert(variants@[1] is Static);
    variants[0]
}

/// How a field is handled: on its own, or in the run of static fields around it.
#[derive(Debug, Clone, Copy, PartialEq, Eq, Structural)]
pub enum FieldRun {
    /// The fields from `start` up to `end`, which are serialized to `size` bytes.
    Static { start: usize, end: usize, size: usize },
    /// The field alone.
    Dynamic,
}

/// Whether the fields from `start` up to `end` are a run: static fields one behind the other,
/// and as many as there are.
pub open spec fn is_run(metas: Seq<TypeMeta>, start: int, end: int) -> bool {
    &&& 0 <= start < end <= metas.len()
    &&& forall|i: int| start <= i < end ==> (#[trigger] metas[i]) is Static
    &&& start > 0 ==> metas[start - 1] is Dynamic
    &&& end < metas.len() ==> metas[end] is Dynamic
}

/// The number of bytes of the fields from `start` up to `end`.
pub open spec fn run_size(metas: Seq<TypeMeta>, start: int, end: int) -> nat {
    total_size(metas.subrange(start, end))
}

/// Whether the size of each run fits a `usize`.
pub open spec fn runs_fit(metas: Seq<TypeMeta>) -> bool {
    forall|start: int, end: int|
        is_run(metas, start, end) ==> #[trigger] run_size(metas, start, end) <= usize::MAX
}

/// Whether `run` says how the field at `i` is handled.
pub open spec fn run_at(metas: Seq<TypeMeta>, i: int, run: FieldRun) -> bool {
    match run {
        FieldRun::Static { start, end, size } => {
            &&& is_run(metas, start as int, end as int)
            &&& start <= i < end
            &&& size == run_size(metas, start as int, end as int)
        },
        FieldRun::Dynamic => metas[i] is Dynamic,
    }
}

/// Whether `runs` is the plan for fields with the given metadata.
pub open spec fn is_plan(metas: Seq<TypeMeta>, runs: Seq<FieldRun>) -> bool {
    &&& runs.len() == metas.len()
    &&& forall|i: int| 0 <= i < metas.len() ==> run_at(metas, i, #[trigger] runs[i])
}

/// The first field of the run around a static field.
pub open spec fn run_start(metas: Seq<TypeMeta>, i: int) -> int
    decreases i,
{
    if i > 0 && metas[i - 1] is Static {
        run_start(metas, i - 1)
    } else {
        i
    }
}

/// The field behind the run around a static field.
pub open spec fn run_end(metas: Seq<TypeMeta>, i: int) -> int
    decreases metas.len() - i,
{
    if i + 1 < metas.len() && metas[i + 1] is Static {
        run_end(metas, i + 1)
    } else {
        i + 1
    }
}

/// Every static field is in a run.
pub proof fn static_fields_are_in_a_run(metas: Seq<TypeMeta>, i: int)
    requires
        0 <= i < metas.len(),
        metas[i] is Static,
    ensures
        is_run(metas, run_start(metas, i), run_end(metas, i)),
        run_start(metas, i) <= i < run_end(metas, i),
{
    lemma_run_start(metas, i);
    lemma_run_end(metas, i);
}

proof fn lemma_run_start(metas: Seq<TypeMeta>, i: int)
    requires
        0 <= i < metas.len(),
        metas[i] is Static,
    ensures
        0 <= run_start(metas, i) <= i,
        forall|k: int| run_start(metas, i) <= k <= i ==> (#[trigger] metas[k]) is Static,
        run_start(metas, i) > 0 ==> metas[run_start(metas, i) - 1] is Dynamic,
    decreases i,
{
    if i > 0 && metas[i - 1] is Static {
        lemma_run_start(metas, i - 1);
    }
}

proof fn lemma_run_end(metas: Seq<TypeMeta>, i: int)
    requires
        0 <= i < metas.len(),
        metas[i] is Static,
    ensures
        i < run_end(metas, i) <= metas.len(),
        forall|k: int| i <= k < run_end(metas, i) ==> (#[trigger] metas[k]) is Static,
        run_end(metas, i) < metas.len() ==> metas[run_end(metas, i)] is Dynamic,
    decreases metas.len() - i,
{
    if i + 1 < metas.len() && metas[i + 1] is Static {
        lemma_run_end(metas, i + 1);
    }
}

/// Two runs that share a field are the same run.
pub proof fn runs_do_not_overlap(
    metas: Seq<TypeMeta>,
    start: int,
    end: int,
    other_start: int,
    other_end: int,
    i: int,
)
    requires
        is_run(metas, start, end),
        is_run(metas, other_start, other_end),
        start <= i < end,
        other_start <= i < other_end,
    ensures
        start == other_start,
        end == other_end,
{
    if start < other_start {
        assert(metas[other_start - 1] is Static);
    }
    if other_start < start {
        assert(metas[start - 1] is Static);
    }
    if end < other_end {
        assert(metas[end] is Static);
    }
    if other_end < end {
        assert(metas[other_end] is Static);
    }
}

/// A run is the one around each of its fields.
pub(crate) proof fn lemma_run(metas: Seq<TypeMeta>, start: int, end: int, i: int)
    requires
        is_run(metas, start, end),
        start <= i < end,
    ensures
        metas[i] is Static,
        run_start(metas, i) == start,
        run_end(metas, i) == end,
{
    static_fields_are_in_a_run(metas, i);
    runs_do_not_overlap(metas, start, end, run_start(metas, i), run_end(metas, i), i);
}

/// There is one plan for the fields of a declaration.
pub proof fn the_plan_is_unique(metas: Seq<TypeMeta>, runs: Seq<FieldRun>, other: Seq<FieldRun>)
    requires
        is_plan(metas, runs),
        is_plan(metas, other),
    ensures
        runs == other,
{
    assert forall|i: int| 0 <= i < runs.len() implies runs[i] == other[i] by {
        assert(run_at(metas, i, runs[i]));
        assert(run_at(metas, i, other[i]));
        if let FieldRun::Static { start, end, size } = runs[i] {
            assert(metas[i] is Static);
            if let FieldRun::Static { start: s, end: e, size: z } = other[i] {
                runs_do_not_overlap(metas, start as int, end as int, s as int, e as int, i);
            }
        } else if let FieldRun::Static { start: s, end: e, size: z } = other[i] {
            assert(metas[i] is Static);
        }
    }
    assert(runs =~= other);
}

impl TypeMeta {
    /// The plan for fields with the given metadata: for each of them the run that it is in.
    ///
    /// The size of each run must fit a `usize`.
    pub fn field_runs(metas: &Vec<TypeMeta>) -> (runs: Vec<FieldRun>)
        requires
            runs_fit(metas@),
        ensures
            is_plan(metas@, runs@),
    {
        let mut runs: Vec<FieldRun> = Vec::new();
        let mut i: usize = 0;
        while i < metas.len()
            invariant
                i <= metas.len(),
                runs_fit(metas@),
                runs@.len() == i,
                i > 0 && i < metas.len() ==> metas@[i as int] is Dynamic || metas@[i - 1] is Dynamic,
                forall|k: int| 0 <= k < i ==> run_at(metas@, k, #[trigger] runs@[k]),
            decreases metas.len() - i,
        {
            match metas[i] {
                TypeMeta::Dynamic => {
                    runs.push(FieldRun::Dynamic);
                    i += 1;
                },
                TypeMeta::Static { .. } => {
                    let start: usize = i;
                    let ghost end_spec = run_end(metas@, start as int);
                    proof {
                        lemma_run_end(metas@, start as int);
                        assert(is_run(metas@, start as int, end_spec));
                        assert(run_size(metas@, start as int, end_spec) <= usize::MAX);
                    }
                    let mut end: usize = start;
                    let mut size: usize = 0;
                    let mut more: bool = true;
                    while more
                        invariant
                            start <= end <= end_spec <= metas.len(),
                            start < end_spec,
                            is_run(metas@, start as int, end_spec),
                            run_size(metas@, start as int, end_spec) <= usize::MAX,
                            size == run_size(metas@, start as int, end as int),
                            more == (end < end_spec),
                        decreases end_spec - end,
                    {
                        let ghost whole = metas@.subrange(start as int, end_spec);
                        let ghost part = metas@.subrange(start as int, end + 1);
                        proof {
                            lemma_total_size_prefix(whole, end + 1 - start);
                            assert(whole.take(end + 1 - start) =~= part);
                            assert(part.drop_last() =~= metas@.subrange(
                                start as int,
                                end as int,
                            ));
                            assert(metas@[end as int] is Static);
                        }
                        if let TypeMeta::Static { size: s, .. } = metas[end] {
                            size = size + s;
                        }
                        end += 1;
                        more = end < metas.len() && match metas[end] {
                            TypeMeta::Static { .. } => true,
                            TypeMeta::Dynamic => false,
                        };
                        proof {
                            if end < end_spec {
                                assert(metas@[end as int] is Static);
                            }
                        }
                    }
                    while i < end
                        invariant
                            start <= i <= end <= metas.len(),
                            is_run(metas@, start as int, end as int),
                            size == run_size(metas@, start as int, end as int),
                            runs@.len() == i,
                            forall|k: int|
                                0 <= k < i ==> run_at(metas@, k, #[trigger] runs@[k]),
                        decreases end - i,
                    {
                        runs.push(FieldRun::Static { start, end, size });
                        i += 1;
                    }
                },
            }
        }
        runs
    }
}

/// Sizes add up: nothing is as large as nothing, one static type is as large as it is, a
/// dynamic one does not count, and two lists are as large as both of them.
pub proof fn sizes_add_up(first: Seq<TypeMeta>, second: Seq<TypeMeta>, meta: TypeMeta)
    ensures
        total_size(first + second) == total_size(first) + total_size(second),
        total_size(seq![]) == 0,
        total_size(seq![meta]) == match meta {
            TypeMeta::Static { size, .. } => size as nat,
            TypeMeta::Dynamic => 0,
        },
{
    lemma_total_size_concat(first, second);
    assert(seq![meta].drop_last() =~= seq![]);
    reveal_with_fuel(total_size, 2);
}

/// Several types one behind the other are static exactly if each of them is, they are as large
/// as all of them, and zero-copy exactly if each of them is.
pub proof fn types_are_joined_end_to_end(metas: Seq<TypeMeta>)
    requires
        total_size(metas) <= usize::MAX,
    ensures
        joined(metas) is Static <==> forall|i: int|
            0 <= i < metas.len() ==> (#[trigger] metas[i]) is Static,
        joined(metas) matches TypeMeta::Static { size, zero_copy } ==> {
            &&& size == total_size(metas)
            &&& zero_copy <==> forall|i: int|
                0 <= i < metas.len() ==> (#[trigger] metas[i] matches TypeMeta::Static {
                    zero_copy: true,
                    ..
                })
        },
{
    if all_zero_copy(metas) {
        assert forall|i: int| 0 <= i < metas.len() implies (#[trigger] metas[i] matches
            TypeMeta::Static { zero_copy: true, .. }) by {
            assert(is_zero_copy(metas[i]));
        }
    } else {
        let i = choose|i: int| 0 <= i < metas.len() && !is_zero_copy(#[trigger] metas[i]);
        assert(!(metas[i] matches TypeMeta::Static { zero_copy: true, .. }));
    }
}

/// A struct is zero-copy exactly if each of its fields is static and zero-copy, its layout is
/// fixed, and its fields are together as large as it is in memory, so that there is no padding.
pub proof fn structs_are_zero_copy_if_all_is(
    fields: Seq<TypeMeta>,
    size_in_memory: usize,
    eligible: bool,
)
    requires
        total_size(fields) <= usize::MAX,
    ensures
        (struct_meta(fields, size_in_memory, eligible) matches TypeMeta::Static {
            zero_copy: true,
            ..
        }) <==> {
            &&& eligible
            &&& total_size(fields) == size_in_memory
            &&& forall|i: int|
                0 <= i < fields.len() ==> (#[trigger] fields[i] matches TypeMeta::Static {
                    zero_copy: true,
                    ..
                })
        },
{
    types_are_joined_end_to_end(fields);
}

/// A struct is static exactly if each of its fields is, and is then serialized to as many bytes
/// as its fields, whatever its layout.
pub proof fn structs_are_as_large_as_their_fields(
    fields: Seq<TypeMeta>,
    size_in_memory: usize,
    eligible: bool,
)
    requires
        total_size(fields) <= usize::MAX,
    ensures
        struct_meta(fields, size_in_memory, eligible) is Static <==> forall|i: int|
            0 <= i < fields.len() ==> (#[trigger] fields[i]) is Static,
        struct_meta(fields, size_in_memory, eligible) matches TypeMeta::Static { size, .. }
            ==> size == total_size(fields),
{
    types_are_joined_end_to_end(fields);
}

/// To allow zero-copy changes nothing; not to allow it takes zero-copy away and nothing else.
pub proof fn zero_copy_is_only_taken_away(meta: TypeMeta)
    ensures
        with_zero_copy(meta, true) == meta,
        with_zero_copy(meta, false) == match meta {
            TypeMeta::Static { size, .. } => TypeMeta::Static { size, zero_copy: false },
            TypeMeta::Dynamic => TypeMeta::Dynamic,
        },
{
}

/// What is chosen among variants is static exactly if each of them is static and as large as
/// what is chosen, and it is the first of them then.
pub proof fn variants_are_chosen_if_they_agree(variants: Seq<TypeMeta>, size: usize)
    requires
        variants.len() > 0,
    ensures
        (chosen(variants) matches TypeMeta::Static { size: s, .. } && s == size) <==> forall|i: int|
            0 <= i < variants.len() ==> (#[trigger] variants[i] matches TypeMeta::Static {
                size: s,
                ..
            } && s == size),
        chosen(variants) is Static ==> chosen(variants) == variants[0],
{
    if chosen(variants) matches TypeMeta::Static { size: s, .. } && s == size {
        assert(same_size(variants)) by {
            if !same_size(variants) {
                assert(chosen(variants) is Dynamic);
            }
        }
        assert forall|i: int| 0 <= i < variants.len() implies (#[trigger] variants[i] matches
            TypeMeta::Static { size: s, .. } && s == size) by {
            let _ = variants[0];
        }
    }
    if forall|i: int|
        0 <= i < variants.len() ==> (#[trigger] variants[i] matches TypeMeta::Static {
            size: s,
            ..
        } && s == size) {
        assert(variants[0] is Static);
        assert(same_size(variants));
    }
}

/// A plan handles a dynamic field alone, and a static field together with all static fields
/// around it up to the next dynamic ones, as one run of the size of all of them.
pub proof fn runs_are_as_long_as_can_be(metas: Seq<TypeMeta>, runs: Seq<FieldRun>, i: int)
    requires
        is_plan(metas, runs),
        0 <= i < metas.len(),
    ensures
        runs.len() == metas.len(),
        metas[i] is Dynamic <==> runs[i] is Dynamic,
        runs[i] matches FieldRun::Static { start, end, size } ==> {
            &&& start <= i < end <= metas.len()
            &&& forall|k: int| start <= k < end ==> (#[trigger] metas[k]) is Static
            &&& start > 0 ==> metas[start - 1] is Dynamic
            &&& end < metas.len() ==> metas[end as int] is Dynamic
            &&& size == total_size(metas.subrange(start as int, end as int))
        },
{
    assert(run_at(metas, i, runs[i]));
}

/// Two fields next to each other are in one run if both are static.
pub proof fn static_neighbours_share_a_run(metas: Seq<TypeMeta>, runs: Seq<FieldRun>, i: int)
    requires
        is_plan(metas, runs),
        0 <= i < metas.len() - 1,
        metas[i] is Static,
        metas[i + 1] is Static,
    ensures
        runs[i] is Static,
        runs[i] == runs[i + 1],
{
    assert(run_at(metas, i, runs[i]));
    assert(run_at(metas, i + 1, runs[i + 1]));
    if let FieldRun::Static { start, end, size } = runs[i] {
        if let FieldRun::Static { start: s, end: e, size: z } = runs[i + 1] {
            lemma_run(metas, start as int, end as int, i);
            lemma_run(metas, s as int, e as int, i + 1);
            if end <= i + 1 {
                assert(metas[end as int] is Dynamic);
            }
            runs_do_not_overlap(metas, start as int, end as int, s as int, e as int, i + 1);
        }
    }
}

} // verus!
