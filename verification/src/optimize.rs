//! The two chunk-graph correctness passes.
//!
//! [`ensure_entry_exports`] enforces entry-export containment: an entry chunk
//! whose modules are referenced by modules of other chunks has its whole
//! module set relocated into a fresh ordinary chunk. [`optimize_runtime_chunks`]
//! enforces runtime/entry separation: an entry point whose runtime chunk is
//! still its entry chunk, while some initial group containing that chunk has
//! grown more than one member, gets a dedicated runtime chunk that loads
//! first.
//!
//! Both passes are scan-then-mutate pipelines: the detection phase reads a
//! snapshot of the graph, the mutation phase applies one relocation or split
//! per detected unit, in the fixed order the entry points are configured in.

use crate::chunk_graph::{
    distinct, distinct_keys, empty_chunk, entry_chunk_of, first_index, first_key_index,
    is_entry_chunk, lemma_first_index, lemma_first_key_index, runtime_chunk_of, spec_add_chunk,
    spec_add_id_name_hint, spec_chunk_add_group, spec_connect_entry_module, spec_connect_module,
    spec_disconnect_entry_module, spec_disconnect_module, spec_graph_add_chunk,
    spec_record_chunk_add, spec_set_prevent_integration, spec_set_runtime, spec_set_runtime_chunk,
    spec_register_in_group, spec_split, spec_split_iter, spec_unshift_chunk, vec_contains, wf,
    wf_chunk, wf_entrypoint, wf_group,
    ChunkGroupKind, Compilation, CompilationModel,
};
use vstd::prelude::*;

verus! {

/// Whether module `t` is currently assigned to the entry chunk `e` of some
/// entry point.
pub open spec fn belongs_to_entry_chunk(m: CompilationModel, t: usize, e: usize) -> bool {
    &&& is_entry_chunk(m, e)
    &&& e < m.chunk_modules.len()
    &&& m.chunk_modules[e as int].contains(t)
}

/// Whether module `t` is assigned to any entry chunk.
pub open spec fn hits_entry(m: CompilationModel, t: usize) -> bool {
    exists|e: usize| belongs_to_entry_chunk(m, t, e)
}

/// The position of the first connection target in `targets` that belongs to
/// some entry chunk, or `targets.len()` when none does. The detection scan
/// stops at this connection: only the existence of a leaked reference
/// matters.
pub open spec fn first_hit_index(m: CompilationModel, targets: Seq<usize>) -> int
    decreases targets.len(),
{
    if targets.len() == 0 {
        0
    } else if hits_entry(m, targets[0]) {
        0
    } else {
        1 + first_hit_index(m, targets.drop_first())
    }
}

pub proof fn lemma_first_hit_index(m: CompilationModel, targets: Seq<usize>)
    ensures
        0 <= first_hit_index(m, targets) <= targets.len(),
        first_hit_index(m, targets) < targets.len() ==> hits_entry(
            m,
            targets[first_hit_index(m, targets)],
        ),
        forall|j: int| 0 <= j < first_hit_index(m, targets) ==> !hits_entry(m, targets[j]),
    decreases targets.len(),
{
    if targets.len() > 0 && !hits_entry(m, targets[0]) {
        lemma_first_hit_index(m, targets.drop_first());
        assert forall|j: int| 0 <= j < first_hit_index(m, targets) implies !hits_entry(
            m,
            targets[j],
        ) by {
            if j > 0 {
                assert(!hits_entry(m, targets.drop_first()[j - 1]));
            }
        }
    }
}

/// The entry chunks that scanning `module`'s connections marks dirty: all
/// entry chunks holding the first connection target that belongs to any
/// entry chunk.
pub open spec fn module_marks(m: CompilationModel, module: usize, e: usize) -> bool {
    &&& module < m.connections.len()
    &&& ({
        let targets = m.connections[module as int];
        let j = first_hit_index(m, targets);
        j < targets.len() && belongs_to_entry_chunk(m, targets[j], e)
    })
}

/// Whether entry chunk `e` is dirty: some module of a non-entry chunk marks
/// it during the detection scan.
pub open spec fn spec_dirty(m: CompilationModel, e: usize) -> bool {
    exists|c: usize, i: int|
        c < m.chunks.len() && !is_entry_chunk(m, c) && 0 <= i < m.chunk_modules[c as int].len()
            && module_marks(m, m.chunk_modules[c as int][i], e)
}

/// The entry point owning entry chunk `e`: the last key in `eps` that
/// designates `e` as its entry chunk. When several entry points share one
/// entry chunk, the later one wins.
pub open spec fn owner_in(m: CompilationModel, eps: Seq<usize>, e: usize) -> usize
    decreases eps.len(),
{
    if eps.len() == 0 {
        0
    } else if entry_chunk_of(m, eps.last()) == e {
        eps.last()
    } else {
        owner_in(m, eps.drop_last(), e)
    }
}

pub open spec fn owner_of(m: CompilationModel, e: usize) -> usize {
    owner_in(m, m.entrypoints, e)
}

pub proof fn lemma_owner_in(m: CompilationModel, eps: Seq<usize>, e: usize)
    requires
        exists|i: int| 0 <= i < eps.len() && entry_chunk_of(m, #[trigger] eps[i]) == e,
    ensures
        eps.contains(owner_in(m, eps, e)),
        entry_chunk_of(m, owner_in(m, eps, e)) == e,
    decreases eps.len(),
{
    if entry_chunk_of(m, eps.last()) == e {
        assert(eps.contains(eps.last()));
    } else {
        let i = choose|i: int| 0 <= i < eps.len() && entry_chunk_of(m, #[trigger] eps[i]) == e;
        assert(eps.drop_last()[i] == eps[i]);
        lemma_owner_in(m, eps.drop_last(), e);
        assert(eps.drop_last().contains(owner_in(m, eps.drop_last(), e)));
        let w = choose|w: int|
            0 <= w < eps.drop_last().len() && eps.drop_last()[w] == owner_in(
                m,
                eps.drop_last(),
                e,
            );
        assert(eps[w] == owner_in(m, eps.drop_last(), e));
    }
}

/// The dirty entry chunks in relocation order: for the entry chunks denoted
/// by `eps` in order of first appearance, those that the detection scan
/// marked.
pub open spec fn dirty_targets_in(m: CompilationModel, eps: Seq<usize>) -> Seq<usize>
    decreases eps.len(),
{
    if eps.len() == 0 {
        Seq::empty()
    } else {
        let prefix = dirty_targets_in(m, eps.drop_last());
        let e = entry_chunk_of(m, eps.last());
        if !eps.drop_last().map_values(|g: usize| entry_chunk_of(m, g)).contains(e) && spec_dirty(
            m,
            e,
        ) {
            prefix.push(e)
        } else {
            prefix
        }
    }
}

pub open spec fn dirty_targets(m: CompilationModel) -> Seq<usize> {
    dirty_targets_in(m, m.entrypoints)
}

/// One unfolding step of [`dirty_targets_in`], with the duplicate test
/// spelled out as an existential over the prefix.
pub proof fn lemma_dirty_targets_step(m: CompilationModel, eps: Seq<usize>)
    requires
        eps.len() > 0,
    ensures
        ({
            let e = entry_chunk_of(m, eps.last());
            dirty_targets_in(m, eps) == if !(exists|w: int|
                0 <= w < eps.len() - 1 && entry_chunk_of(m, #[trigger] eps[w]) == e) && spec_dirty(
                m,
                e,
            ) {
                dirty_targets_in(m, eps.drop_last()).push(e)
            } else {
                dirty_targets_in(m, eps.drop_last())
            }
        }),
{
    let e = entry_chunk_of(m, eps.last());
    let pre = eps.drop_last();
    let mapped = pre.map_values(|g: usize| entry_chunk_of(m, g));
    assert(mapped.len() == pre.len());
    if mapped.contains(e) {
        let w = choose|w: int| 0 <= w < mapped.len() && mapped[w] == e;
        assert(mapped[w] == entry_chunk_of(m, pre[w]));
        assert(pre[w] == eps[w]);
        assert(exists|w2: int|
            0 <= w2 < eps.len() - 1 && entry_chunk_of(m, #[trigger] eps[w2]) == e);
    }
    if exists|w: int| 0 <= w < eps.len() - 1 && entry_chunk_of(m, #[trigger] eps[w]) == e {
        let w = choose|w: int| 0 <= w < eps.len() - 1 && entry_chunk_of(m, #[trigger] eps[w]) == e;
        assert(mapped[w] == entry_chunk_of(m, pre[w]));
        assert(mapped.contains(e));
    }
}

/// Model of moving one module from entry chunk `e` to the fresh chunk: the
/// membership and entry-module relations change together, in one logical
/// step.
pub open spec fn spec_move_module(
    m: CompilationModel,
    e: usize,
    fresh: usize,
    owner: usize,
    module: usize,
) -> CompilationModel {
    let m1 = spec_disconnect_entry_module(m, e, module);
    let m2 = spec_disconnect_module(m1, e, module);
    let m3 = spec_connect_module(m2, fresh, module);
    spec_connect_entry_module(m3, fresh, module, owner)
}

/// Model of moving the listed modules, in order, from `e` to `fresh`.
pub open spec fn spec_move_modules(
    m: CompilationModel,
    e: usize,
    fresh: usize,
    owner: usize,
    mods: Seq<usize>,
) -> CompilationModel
    decreases mods.len(),
{
    if mods.len() == 0 {
        m
    } else {
        spec_move_module(
            spec_move_modules(m, e, fresh, owner, mods.drop_last()),
            e,
            fresh,
            owner,
            mods.last(),
        )
    }
}

/// Model of relocating one dirty entry chunk: allocate and register a fresh
/// chunk, log the addition, hand over the runtime designation when the owner
/// entry point had it on `e`, move every module of `e` into the fresh chunk,
/// and split `e` so the fresh chunk joins every group `e` belongs to.
pub open spec fn spec_relocate(m: CompilationModel, e: usize, owner: usize) -> CompilationModel {
    let fresh = m.chunks.len() as usize;
    let mods = if e < m.chunk_modules.len() {
        m.chunk_modules[e as int]
    } else {
        Seq::empty()
    };
    let m1 = spec_add_chunk(m);
    let m2 = spec_record_chunk_add(m1, fresh);
    let m3 = spec_graph_add_chunk(m2);
    let m4 = if runtime_chunk_of(m3, owner) == e {
        spec_set_runtime_chunk(m3, owner, fresh)
    } else {
        m3
    };
    let m5 = spec_move_modules(m4, e, fresh, owner, mods);
    spec_split(m5, e, fresh)
}

/// Model of the whole mutation phase of the containment pass: relocate each
/// dirty entry chunk of `ds`, in order. Owners are resolved against the
/// pre-pass state `m0`, as the pass records them before mutating.
pub open spec fn apply_relocations(m0: CompilationModel, ds: Seq<usize>) -> CompilationModel
    decreases ds.len(),
{
    if ds.len() == 0 {
        m0
    } else {
        spec_relocate(
            apply_relocations(m0, ds.drop_last()),
            ds.last(),
            owner_of(m0, ds.last()),
        )
    }
}

/// Whether the runtime-separation pass selects entry point `g`: its runtime
/// chunk is still its entry chunk, and some initial group containing that
/// chunk has more than one member.
pub open spec fn spec_needs_split(m: CompilationModel, g: usize) -> bool {
    &&& runtime_chunk_of(m, g) == entry_chunk_of(m, g)
    &&& ({
        let c = entry_chunk_of(m, g);
        c < m.chunks.len() && exists|i: int|
            0 <= i < m.chunks[c as int].groups.len() && (#[trigger] m.chunks[c as int].groups[i])
                < m.chunk_groups.len() && m.chunk_groups[m.chunks[c as int].groups[i] as int].is_initial
                && m.chunk_groups[m.chunks[c as int].groups[i] as int].chunks.len() > 1
    })
}

/// The entry points the runtime-separation pass selects, in configuration
/// order.
pub open spec fn selected_in(m: CompilationModel, eps: Seq<usize>) -> Seq<usize>
    decreases eps.len(),
{
    if eps.len() == 0 {
        Seq::empty()
    } else {
        let prefix = selected_in(m, eps.drop_last());
        if spec_needs_split(m, eps.last()) {
            prefix.push(eps.last())
        } else {
            prefix
        }
    }
}

pub open spec fn selected_entrypoints(m: CompilationModel) -> Seq<usize> {
    selected_in(m, m.entrypoints)
}

/// Model of splitting the runtime out of entry point `g`: allocate and
/// register a fresh chunk, log the addition, designate it the runtime chunk,
/// put it first in `g`'s ordering, copy the entry chunk's
/// runtime-applicability spec onto it as a snapshot, tag it with the
/// "runtime" name hint, protect it from integration, and record the group on
/// it.
pub open spec fn spec_split_runtime(m: CompilationModel, g: usize) -> CompilationModel {
    let entry = entry_chunk_of(m, g);
    let fresh = m.chunks.len() as usize;
    let m1 = spec_add_chunk(m);
    let m2 = spec_record_chunk_add(m1, fresh);
    let m3 = spec_graph_add_chunk(m2);
    let m4 = spec_set_runtime_chunk(m3, g, fresh);
    let m5 = spec_unshift_chunk(m4, g, fresh);
    let m6 = spec_set_runtime(
        m5,
        fresh,
        if entry < m.chunks.len() {
            m.chunks[entry as int].runtime
        } else {
            Seq::empty()
        },
    );
    let m7 = spec_add_id_name_hint(m6, fresh, "runtime"@);
    let m8 = spec_set_prevent_integration(m7, fresh, true);
    spec_chunk_add_group(m8, fresh, g)
}

/// Model of the whole mutation phase of the runtime-separation pass.
pub open spec fn apply_runtime_splits(m0: CompilationModel, sel: Seq<usize>) -> CompilationModel
    decreases sel.len(),
{
    if sel.len() == 0 {
        m0
    } else {
        spec_split_runtime(apply_runtime_splits(m0, sel.drop_last()), sel.last())
    }
}

/// Moving modules touches only the two membership tables; every other
/// component, and the tables' sizes, stay as they were.
pub proof fn lemma_move_modules_shape(
    m: CompilationModel,
    e: usize,
    fresh: usize,
    owner: usize,
    mods: Seq<usize>,
)
    ensures
        ({
            let r = spec_move_modules(m, e, fresh, owner, mods);
            &&& r.chunks == m.chunks
            &&& r.chunk_groups == m.chunk_groups
            &&& r.entrypoints == m.entrypoints
            &&& r.connections == m.connections
            &&& r.mutations == m.mutations
            &&& r.chunk_modules.len() == m.chunk_modules.len()
            &&& r.chunk_entry_modules.len() == m.chunk_entry_modules.len()
        }),
    decreases mods.len(),
{
    if mods.len() > 0 {
        lemma_move_modules_shape(m, e, fresh, owner, mods.drop_last());
    }
}

/// Registering a chunk into groups touches only the group orderings and the
/// new chunk's group list.
pub proof fn lemma_split_iter_shape(
    m: CompilationModel,
    source: usize,
    new_chunk: usize,
    gs: Seq<usize>,
)
    ensures
        ({
            let r = spec_split_iter(m, source, new_chunk, gs);
            &&& r.entrypoints == m.entrypoints
            &&& r.connections == m.connections
            &&& r.mutations == m.mutations
            &&& r.chunk_modules == m.chunk_modules
            &&& r.chunk_entry_modules == m.chunk_entry_modules
            &&& r.chunks.len() == m.chunks.len()
            &&& r.chunk_groups.len() == m.chunk_groups.len()
            &&& forall|c: int|
                0 <= c < m.chunks.len() && c != new_chunk ==> r.chunks[c] == m.chunks[c]
            &&& new_chunk < m.chunks.len() ==> r.chunks[new_chunk as int].runtime
                == m.chunks[new_chunk as int].runtime && r.chunks[new_chunk as int].id_name_hints
                == m.chunks[new_chunk as int].id_name_hints && r.chunks[
                new_chunk as int
            ].prevent_integration == m.chunks[new_chunk as int].prevent_integration
            &&& forall|g: int|
                0 <= g < m.chunk_groups.len() ==> (#[trigger] r.chunk_groups[g]).is_initial
                    == m.chunk_groups[g].is_initial && r.chunk_groups[g].kind
                    == m.chunk_groups[g].kind
        }),
    decreases gs.len(),
{
    if gs.len() > 0 {
        lemma_split_iter_shape(m, source, new_chunk, gs.drop_last());
    }
}

/// Relocating one entry chunk appends exactly one chunk and never disturbs
/// the entry-point structure: the entry-point list, every group's kind
/// discriminant, entry-chunk designation and initial flag, every existing
/// chunk record, and the module graph are preserved.
pub proof fn lemma_relocate_shape(m: CompilationModel, e: usize, owner: usize)
    requires
        m.chunks.len() < usize::MAX,
    ensures
        ({
            let r = spec_relocate(m, e, owner);
            &&& r.entrypoints == m.entrypoints
            &&& r.connections == m.connections
            &&& r.chunks.len() == m.chunks.len() + 1
            &&& r.chunk_modules.len() == m.chunk_modules.len() + 1
            &&& r.chunk_entry_modules.len() == m.chunk_entry_modules.len() + 1
            &&& r.chunk_groups.len() == m.chunk_groups.len()
            &&& forall|c: int| 0 <= c < m.chunks.len() ==> r.chunks[c] == m.chunks[c]
            &&& forall|g: int|
                0 <= g < m.chunk_groups.len() ==> (#[trigger] r.chunk_groups[g]).is_initial
                    == m.chunk_groups[g].is_initial
            &&& forall|g: usize|
                g < m.chunk_groups.len() ==> ((#[trigger] r.chunk_groups[g as int].kind)
                    is Entrypoint <==> m.chunk_groups[g as int].kind is Entrypoint)
                    && entry_chunk_of(r, g) == entry_chunk_of(m, g)
        }),
{
    let fresh = m.chunks.len() as usize;
    let mods = if e < m.chunk_modules.len() {
        m.chunk_modules[e as int]
    } else {
        Seq::empty()
    };
    let m1 = spec_add_chunk(m);
    let m2 = spec_record_chunk_add(m1, fresh);
    let m3 = spec_graph_add_chunk(m2);
    let m4 = if runtime_chunk_of(m3, owner) == e {
        spec_set_runtime_chunk(m3, owner, fresh)
    } else {
        m3
    };
    let m5 = spec_move_modules(m4, e, fresh, owner, mods);
    lemma_move_modules_shape(m4, e, fresh, owner, mods);
    if e < m5.chunks.len() {
        lemma_split_iter_shape(m5, e, fresh, m5.chunks[e as int].groups);
    }
}

/// Each relocation appends exactly one chunk, whatever else it does.
pub proof fn lemma_apply_relocations_len(m0: CompilationModel, ds: Seq<usize>)
    ensures
        apply_relocations(m0, ds).chunks.len() == m0.chunks.len() + ds.len(),
    decreases ds.len(),
{
    if ds.len() > 0 {
        lemma_apply_relocations_len(m0, ds.drop_last());
        let prev = apply_relocations(m0, ds.drop_last());
        let e = ds.last();
        let owner = owner_of(m0, e);
        let fresh = prev.chunks.len() as usize;
        let mods = if e < prev.chunk_modules.len() {
            prev.chunk_modules[e as int]
        } else {
            Seq::empty()
        };
        let m1 = spec_add_chunk(prev);
        let m2 = spec_record_chunk_add(m1, fresh);
        let m3 = spec_graph_add_chunk(m2);
        let m4 = if runtime_chunk_of(m3, owner) == e {
            spec_set_runtime_chunk(m3, owner, fresh)
        } else {
            m3
        };
        let m5 = spec_move_modules(m4, e, fresh, owner, mods);
        lemma_move_modules_shape(m4, e, fresh, owner, mods);
        if e < m5.chunks.len() {
            lemma_split_iter_shape(m5, e, fresh, m5.chunks[e as int].groups);
        }
    }
}

/// The shape facts of [`lemma_relocate_shape`], folded over a whole
/// relocation list.
pub proof fn lemma_apply_relocations_shape(m0: CompilationModel, ds: Seq<usize>)
    requires
        m0.chunks.len() + ds.len() <= usize::MAX,
    ensures
        ({
            let r = apply_relocations(m0, ds);
            &&& r.entrypoints == m0.entrypoints
            &&& r.connections == m0.connections
            &&& r.chunks.len() == m0.chunks.len() + ds.len()
            &&& r.chunk_modules.len() == m0.chunk_modules.len() + ds.len()
            &&& r.chunk_entry_modules.len() == m0.chunk_entry_modules.len() + ds.len()
            &&& r.chunk_groups.len() == m0.chunk_groups.len()
            &&& forall|c: int| 0 <= c < m0.chunks.len() ==> r.chunks[c] == m0.chunks[c]
            &&& forall|g: int|
                0 <= g < m0.chunk_groups.len() ==> (#[trigger] r.chunk_groups[g]).is_initial
                    == m0.chunk_groups[g].is_initial
            &&& forall|g: usize|
                g < m0.chunk_groups.len() ==> ((#[trigger] r.chunk_groups[g as int].kind)
                    is Entrypoint <==> m0.chunk_groups[g as int].kind is Entrypoint)
                    && entry_chunk_of(r, g) == entry_chunk_of(m0, g)
        }),
    decreases ds.len(),
{
    if ds.len() > 0 {
        lemma_apply_relocations_shape(m0, ds.drop_last());
        lemma_relocate_shape(
            apply_relocations(m0, ds.drop_last()),
            ds.last(),
            owner_of(m0, ds.last()),
        );
    }
}

/// [`is_entry_chunk`] restricted to the first `k` entry points.
pub open spec fn is_entry_upto(m: CompilationModel, c: usize, k: int) -> bool {
    exists|x: int| 0 <= x < k && entry_chunk_of(m, #[trigger] m.entrypoints[x]) == c
}

/// [`belongs_to_entry_chunk`] restricted to the first `k` entry points.
pub open spec fn belongs_upto(m: CompilationModel, t: usize, e: usize, k: int) -> bool {
    &&& is_entry_upto(m, e, k)
    &&& e < m.chunk_modules.len()
    &&& m.chunk_modules[e as int].contains(t)
}

/// [`spec_dirty`] restricted to the scan prefix: chunks before `c`, plus the
/// first `mi` modules of chunk `c`.
pub open spec fn dirty_before(m: CompilationModel, e: usize, c: int, mi: int) -> bool {
    exists|c2: int, i2: int|
        0 <= c2 < m.chunks.len() && 0 <= i2 < m.chunk_modules[c2].len() && (c2 < c || (c2 == c
            && i2 < mi)) && !is_entry_chunk(m, c2 as usize) && module_marks(
            m,
            m.chunk_modules[c2][i2],
            e,
        )
}

/// The bookkeeping of the containment pass's first step: which chunks are
/// entry chunks, which entry point owns each (the last one configured wins),
/// and, per module, the entry chunks the module currently belongs to.
pub fn collect_entry_info(compilation: &Compilation) -> (r: (Vec<bool>, Vec<usize>, Vec<Vec<usize>>))
    requires
        wf(compilation@),
    ensures
        r.0@.len() == compilation@.chunks.len(),
        forall|c: int|
            0 <= c < r.0@.len() ==> r.0@[c] == is_entry_chunk(compilation@, c as usize),
        r.1@.len() == compilation@.chunks.len(),
        forall|c: int|
            0 <= c < r.1@.len() && is_entry_chunk(compilation@, c as usize) ==> r.1@[c]
                == owner_of(compilation@, c as usize),
        r.2@.len() == compilation@.connections.len(),
        forall|mo: int|
            0 <= mo < r.2@.len() ==> distinct(#[trigger] r.2@[mo]@),
        forall|mo: int, e: usize|
            0 <= mo < r.2@.len() ==> ((#[trigger] r.2@[mo]@.contains(e)) <==> belongs_to_entry_chunk(
                compilation@,
                mo as usize,
                e,
            )),
        forall|mo: int, z: int|
            0 <= mo < r.2@.len() && 0 <= z < r.2@[mo]@.len() ==> (#[trigger] r.2@[mo]@[z])
                < compilation@.chunks.len(),
{
    let ghost m = compilation@;
    let n_chunks = compilation.chunks.len();
    let n_modules = compilation.module_graph.connections.len();
    let mut is_entry: Vec<bool> = vec![false; n_chunks];
    let mut owner: Vec<usize> = vec![0; n_chunks];
    let mut entry_of: Vec<Vec<usize>> = Vec::new();
    let mut setup: usize = 0;
    while setup < n_modules
        invariant
            setup <= n_modules,
            entry_of@.len() == setup,
            forall|mo: int| 0 <= mo < setup ==> (#[trigger] entry_of@[mo]@) == Seq::<usize>::empty(),
        decreases n_modules - setup,
    {
        entry_of.push(Vec::new());
        setup += 1;
    }
    let ghost eps = m.entrypoints;
    let mut x: usize = 0;
    while x < compilation.entrypoints.len()
        invariant
            wf(m),
            m == compilation@,
            x <= eps.len(),
            eps == m.entrypoints,
            n_chunks == m.chunks.len(),
            n_modules == m.connections.len(),
            is_entry@.len() == n_chunks,
            owner@.len() == n_chunks,
            entry_of@.len() == n_modules,
            forall|c: int| 0 <= c < n_chunks ==> is_entry@[c] == is_entry_upto(m, c as usize, x as int),
            forall|c: int|
                0 <= c < n_chunks && is_entry_upto(m, c as usize, x as int) ==> owner@[c]
                    == owner_in(m, eps.take(x as int), c as usize),
            forall|mo: int| 0 <= mo < n_modules ==> distinct(#[trigger] entry_of@[mo]@),
            forall|mo: int, e: usize|
                0 <= mo < n_modules ==> ((#[trigger] entry_of@[mo]@.contains(e)) <==> belongs_upto(
                    m,
                    mo as usize,
                    e,
                    x as int,
                )),
            forall|mo: int, z: int|
                0 <= mo < n_modules && 0 <= z < entry_of@[mo]@.len() ==> (#[trigger] entry_of@[mo]@[z])
                    < n_chunks,
        decreases eps.len() - x,
    {
        let g = compilation.entrypoints[x];
        proof {
            assert(wf_entrypoint(m, eps[x as int]));
        }
        let e = compilation.chunk_groups[g].get_entrypoint_chunk();
        is_entry[e] = true;
        owner[e] = g;
        let ghost prev_entry_of = entry_of@;
        let mods = compilation.chunk_graph.get_chunk_modules(e);
        proof {
            assert(wf_chunk(m, e as int));
        }
        let mut k: usize = 0;
        while k < mods.len()
            invariant
                wf(m),
                m == compilation@,
                k <= mods@.len(),
                e < n_chunks,
                n_chunks == m.chunks.len(),
                n_modules == m.connections.len(),
                mods@ == m.chunk_modules[e as int],
                wf_chunk(m, e as int),
                entry_of@.len() == n_modules,
                forall|mo: int| 0 <= mo < n_modules ==> distinct(
                    #[trigger] entry_of@[mo]@,
                ),
                forall|mo: int, e2: usize|
                    0 <= mo < n_modules ==> ((#[trigger] entry_of@[mo]@.contains(e2))
                        <==> (prev_entry_of[mo]@.contains(e2) || (e2 == e && exists|k2: int|
                        0 <= k2 < k && mods@[k2] == mo as usize))),
                prev_entry_of.len() == n_modules,
                forall|mo: int, e2: usize|
                    0 <= mo < n_modules ==> ((#[trigger] prev_entry_of[mo]@.contains(e2))
                        <==> belongs_upto(m, mo as usize, e2, x as int)),
                forall|mo: int, z: int|
                    0 <= mo < n_modules && 0 <= z < entry_of@[mo]@.len() ==> (#[trigger] entry_of@[mo]@[z])
                        < n_chunks,
            decreases mods@.len() - k,
        {
            let mo = mods[k];
            proof {
                assert(m.chunk_modules[e as int][k as int] == mo);
                assert(mo < n_modules);
            }
            let ghost before = entry_of@;
            let already = vec_contains(&entry_of[mo], e);
            if !already {
                entry_of[mo].push(e);
                proof {
                    assert(entry_of@[mo as int]@ == before[mo as int]@.push(e));
                    assert(entry_of@[mo as int]@[before[mo as int]@.len() as int] == e);
                    assert(entry_of@[mo as int]@.contains(e));
                }
            }
            proof {
                assert forall|mo2: int, e2: usize| 0 <= mo2 < n_modules implies ((
                #[trigger] entry_of@[mo2]@.contains(e2)) <==> (prev_entry_of[mo2]@.contains(e2) || (
                e2 == e && exists|k2: int| 0 <= k2 < k + 1 && mods@[k2] == mo2 as usize))) by {
                    assert(mods@[k as int] == mo as usize);
                    if mo2 != mo as int {
                        assert(entry_of@[mo2]@ == before[mo2]@);
                        if e2 == e && exists|k2: int| 0 <= k2 < k + 1 && mods@[k2] == mo2 as usize {
                            let k2 = choose|k2: int| 0 <= k2 < k + 1 && mods@[k2] == mo2 as usize;
                            assert(k2 != k);
                            assert(0 <= k2 < k && mods@[k2] == mo2 as usize);
                        }
                    } else {
                        if already {
                            assert(entry_of@[mo2]@ == before[mo2]@);
                            assert(before[mo2]@.contains(e));
                        } else {
                            assert(entry_of@[mo2]@ == before[mo2]@.push(e));
                            assert(entry_of@[mo2]@.contains(e));
                            if entry_of@[mo2]@.contains(e2) && e2 != e {
                                let w = choose|w: int|
                                    0 <= w < entry_of@[mo2]@.len() && entry_of@[mo2]@[w] == e2;
                                assert(w < before[mo2]@.len());
                                assert(before[mo2]@[w] == e2);
                                assert(before[mo2]@.contains(e2));
                            }
                            if before[mo2]@.contains(e2) {
                                let w = choose|w: int|
                                    0 <= w < before[mo2]@.len() && before[mo2]@[w] == e2;
                                assert(entry_of@[mo2]@[w] == e2);
                                assert(entry_of@[mo2]@.contains(e2));
                            }
                        }
                    }
                }
                assert forall|mo2: int| 0 <= mo2 < n_modules implies distinct(
                    #[trigger] entry_of@[mo2]@,
                ) by {
                    if mo2 == mo as int && !already {
                        assert(entry_of@[mo2]@ == before[mo2]@.push(e));
                        assert forall|i2: int, j2: int|
                            0 <= i2 < j2 < entry_of@[mo2]@.len() implies entry_of@[mo2]@[i2]
                            != entry_of@[mo2]@[j2] by {
                            if j2 == before[mo2]@.len() as int {
                                if before[mo2]@[i2] == e {
                                    assert(before[mo2]@.contains(e));
                                }
                            } else {
                                assert(before[mo2]@[i2] == entry_of@[mo2]@[i2]);
                                assert(before[mo2]@[j2] == entry_of@[mo2]@[j2]);
                            }
                        }
                    }
                }
            }
            k += 1;
        }
        proof {
            assert(eps.take(x + 1).drop_last() =~= eps.take(x as int));
            assert(eps.take(x + 1).last() == eps[x as int]);
            assert forall|c: int| 0 <= c < n_chunks implies is_entry@[c] == is_entry_upto(
                m,
                c as usize,
                x + 1,
            ) by {
                if is_entry@[c] {
                    if c == e as int {
                        assert(entry_chunk_of(m, m.entrypoints[x as int]) == c as usize);
                    } else {
                        assert(is_entry_upto(m, c as usize, x as int));
                    }
                }
                if is_entry_upto(m, c as usize, x + 1) && c != e as int {
                    let w = choose|w: int|
                        0 <= w < x + 1 && entry_chunk_of(m, #[trigger] m.entrypoints[w]) == c as usize;
                    assert(w < x);
                    assert(is_entry_upto(m, c as usize, x as int));
                }
            }
            assert forall|c: int|
                0 <= c < n_chunks && is_entry_upto(m, c as usize, x + 1) implies owner@[c]
                == owner_in(m, eps.take(x + 1), c as usize) by {
                if c == e as int {
                    assert(owner_in(m, eps.take(x + 1), c as usize) == eps[x as int]);
                } else {
                    let w = choose|w: int|
                        0 <= w < x + 1 && entry_chunk_of(m, #[trigger] m.entrypoints[w]) == c as usize;
                    assert(w < x);
                    assert(is_entry_upto(m, c as usize, x as int));
                    assert(owner_in(m, eps.take(x + 1), c as usize) == owner_in(
                        m,
                        eps.take(x as int),
                        c as usize,
                    ));
                }
            }
            assert forall|mo: int, e2: usize| 0 <= mo < n_modules implies ((#[trigger] entry_of@[mo]@.contains(e2)) <==> belongs_upto(m, mo as usize, e2, x + 1)) by {
                if entry_of@[mo]@.contains(e2) {
                    if prev_entry_of[mo]@.contains(e2) {
                        assert(belongs_upto(m, mo as usize, e2, x as int));
                        assert(belongs_upto(m, mo as usize, e2, x + 1));
                    } else {
                        assert(e2 == e);
                        assert(m.chunk_modules[e as int].contains(mo as usize));
                        assert(entry_chunk_of(m, m.entrypoints[x as int]) == e);
                        assert(is_entry_upto(m, e, x + 1));
                    }
                }
                if belongs_upto(m, mo as usize, e2, x + 1) {
                    if belongs_upto(m, mo as usize, e2, x as int) {
                        assert(prev_entry_of[mo]@.contains(e2));
                    } else {
                        let w = choose|w: int|
                            0 <= w < x + 1 && entry_chunk_of(m, #[trigger] m.entrypoints[w]) == e2;
                        assert(w == x);
                        assert(e2 == e);
                        let wi = choose|wi: int|
                            0 <= wi < m.chunk_modules[e as int].len() && m.chunk_modules[e as int][wi]
                                == mo as usize;
                        assert(mods@[wi] == mo as usize);
                    }
                }
            }
        }
        x += 1;
    }
    proof {
        assert(eps.take(eps.len() as int) =~= eps);
        assert forall|c: int| 0 <= c < n_chunks implies is_entry@[c] == is_entry_chunk(
            m,
            c as usize,
        ) by {
            assert(is_entry_upto(m, c as usize, eps.len() as int) == is_entry_chunk(m, c as usize));
        }
        assert forall|mo: int, e: usize| 0 <= mo < n_modules implies ((#[trigger] entry_of@[mo]@.contains(e)) <==> belongs_to_entry_chunk(m, mo as usize, e)) by {
            assert(belongs_upto(m, mo as usize, e, eps.len() as int) == belongs_to_entry_chunk(
                m,
                mo as usize,
                e,
            ));
        }
    }
    (is_entry, owner, entry_of)
}

/// Set the dirty flag of every chunk key in `list`.
fn mark_all_dirty(dirty: &mut Vec<bool>, list: &Vec<usize>)
    requires
        forall|z: int| 0 <= z < list@.len() ==> (#[trigger] list@[z]) < old(dirty)@.len(),
    ensures
        final(dirty)@.len() == old(dirty)@.len(),
        forall|e: int|
            0 <= e < old(dirty)@.len() ==> (final(dirty)@[e] <==> (old(dirty)@[e]
                || list@.contains(e as usize))),
{
    let n_total = dirty.len();
    let mut z: usize = 0;
    while z < list.len()
        invariant
            n_total == old(dirty)@.len(),
            z <= list@.len(),
            forall|z2: int| 0 <= z2 < list@.len() ==> (#[trigger] list@[z2]) < old(dirty)@.len(),
            dirty@.len() == old(dirty)@.len(),
            forall|e: int|
                0 <= e < old(dirty)@.len() ==> (dirty@[e] <==> (old(dirty)@[e] || exists|z2: int|
                    0 <= z2 < z && list@[z2] == e as usize)),
        decreases list@.len() - z,
    {
        let ghost prev = dirty@;
        let tgt = list[z];
        dirty[tgt] = true;
        proof {
            assert forall|e: int| 0 <= e < old(dirty)@.len() implies (dirty@[e] <==> (old(
                dirty,
            )@[e] || exists|z2: int| 0 <= z2 < z + 1 && list@[z2] == e as usize)) by {
                if e == tgt as int {
                    assert(list@[z as int] == e as usize);
                    assert(dirty@[e]);
                } else {
                    assert(dirty@[e] == prev[e]);
                    if prev[e] && !old(dirty)@[e] {
                        let z2 = choose|z2: int| 0 <= z2 < z && list@[z2] == e as usize;
                        assert(0 <= z2 < z + 1 && list@[z2] == e as usize);
                    }
                    if !prev[e] && exists|z2: int| 0 <= z2 < z + 1 && list@[z2] == e as usize {
                        let z2 = choose|z2: int| 0 <= z2 < z + 1 && list@[z2] == e as usize;
                        assert(z2 != z);
                        assert(0 <= z2 < z && list@[z2] == e as usize);
                        assert(false);
                    }
                }
            }
        }
        z += 1;
    }
    proof {
        assert forall|e: int| 0 <= e < old(dirty)@.len() implies (dirty@[e] <==> (old(dirty)@[e]
            || list@.contains(e as usize))) by {
            if !old(dirty)@[e] {
                if dirty@[e] {
                    let z2 = choose|z2: int| 0 <= z2 < z && list@[z2] == e as usize;
                    assert(list@.contains(e as usize));
                }
                if list@.contains(e as usize) {
                    let z2 = choose|z2: int| 0 <= z2 < list@.len() && list@[z2] == e as usize;
                    assert(0 <= z2 < z && list@[z2] == e as usize);
                    assert(dirty@[e]);
                }
            }
        }
    }
}

/// The detection scan of the containment pass: for every chunk that is not an
/// entry chunk, walk each of its modules' active outgoing connections until
/// one target belongs to an entry chunk, and mark every entry chunk holding
/// that target as dirty. Only the existence of a leaked reference matters, so
/// the walk stops at the first such target.
pub fn compute_dirty_flags(
    compilation: &Compilation,
    is_entry: &Vec<bool>,
    entry_of: &Vec<Vec<usize>>,
) -> (dirty: Vec<bool>)
    requires
        wf(compilation@),
        is_entry@.len() == compilation@.chunks.len(),
        forall|c: int|
            0 <= c < is_entry@.len() ==> is_entry@[c] == is_entry_chunk(compilation@, c as usize),
        entry_of@.len() == compilation@.connections.len(),
        forall|mo: int, e: usize|
            0 <= mo < entry_of@.len() ==> ((#[trigger] entry_of@[mo]@.contains(e))
                <==> belongs_to_entry_chunk(compilation@, mo as usize, e)),
        forall|mo: int, z: int|
            0 <= mo < entry_of@.len() && 0 <= z < entry_of@[mo]@.len() ==> (#[trigger] entry_of@[mo]@[z])
                < compilation@.chunks.len(),
    ensures
        dirty@.len() == compilation@.chunks.len(),
        forall|e: int|
            0 <= e < dirty@.len() ==> dirty@[e] == spec_dirty(compilation@, e as usize),
{
    let ghost m = compilation@;
    let n_chunks = compilation.chunks.len();
    let mut dirty: Vec<bool> = vec![false; n_chunks];
    let mut c: usize = 0;
    while c < n_chunks
        invariant
            wf(m),
            m == compilation@,
            is_entry@.len() == n_chunks,
            forall|c2: int|
                0 <= c2 < n_chunks ==> is_entry@[c2] == is_entry_chunk(m, c2 as usize),
            entry_of@.len() == m.connections.len(),
            forall|mo: int, e: usize|
                0 <= mo < entry_of@.len() ==> ((#[trigger] entry_of@[mo]@.contains(e))
                    <==> belongs_to_entry_chunk(m, mo as usize, e)),
            forall|mo: int, z: int|
                0 <= mo < entry_of@.len() && 0 <= z < entry_of@[mo]@.len() ==> (#[trigger] entry_of@[mo]@[z])
                    < n_chunks,
            c <= n_chunks,
            n_chunks == m.chunks.len(),
            dirty@.len() == n_chunks,
            forall|e: int|
                0 <= e < n_chunks ==> dirty@[e] == dirty_before(m, e as usize, c as int, 0),
        decreases n_chunks - c,
    {
        if !is_entry[c] {
            proof {
                assert(m.chunk_modules.len() == n_chunks);
            }
            let mods_len = compilation.chunk_graph.chunk_modules[c].len();
            let mut mi: usize = 0;
            while mi < mods_len
                invariant
                    wf(m),
                    m == compilation@,
                    entry_of@.len() == m.connections.len(),
                    forall|mo: int, e: usize|
                        0 <= mo < entry_of@.len() ==> ((#[trigger] entry_of@[mo]@.contains(e))
                            <==> belongs_to_entry_chunk(m, mo as usize, e)),
                    forall|mo: int, z: int|
                        0 <= mo < entry_of@.len() && 0 <= z < entry_of@[mo]@.len() ==> (
                        #[trigger] entry_of@[mo]@[z]) < n_chunks,
                    mi <= mods_len,
                    c < n_chunks,
                    n_chunks == m.chunks.len(),
                    !is_entry_chunk(m, c as usize),
                    mods_len == m.chunk_modules[c as int].len(),
                    dirty@.len() == n_chunks,
                    forall|e: int|
                        0 <= e < n_chunks ==> dirty@[e] == dirty_before(
                            m,
                            e as usize,
                            c as int,
                            mi as int,
                        ),
                decreases mods_len - mi,
            {
                let mo = compilation.chunk_graph.chunk_modules[c][mi];
                proof {
                    assert(wf_chunk(m, c as int));
                    assert(m.chunk_modules[c as int][mi as int] == mo);
                    assert(mo < m.connections.len());
                }
                let ghost targets = m.connections[mo as int];
                let conns_len = compilation.module_graph.connections[mo].len();
                let mut j: usize = 0;
                let mut found = false;
                while j < conns_len && !found
                    invariant
                        wf(m),
                        m == compilation@,
                        entry_of@.len() == m.connections.len(),
                        forall|mo2: int, e: usize|
                            0 <= mo2 < entry_of@.len() ==> ((#[trigger] entry_of@[mo2]@.contains(e))
                                <==> belongs_to_entry_chunk(m, mo2 as usize, e)),
                        forall|mo2: int, z: int|
                            0 <= mo2 < entry_of@.len() && 0 <= z < entry_of@[mo2]@.len() ==> (
                            #[trigger] entry_of@[mo2]@[z]) < n_chunks,
                        j <= conns_len,
                        c < n_chunks,
                        n_chunks == m.chunks.len(),
                        !is_entry_chunk(m, c as usize),
                        mo < m.connections.len(),
                        targets == m.connections[mo as int],
                        conns_len == targets.len(),
                        0 <= mi < m.chunk_modules[c as int].len(),
                        m.chunk_modules[c as int][mi as int] == mo,
                        dirty@.len() == n_chunks,
                        !found ==> forall|j2: int| 0 <= j2 < j ==> !hits_entry(m, targets[j2]),
                        !found ==> forall|e: int|
                            0 <= e < n_chunks ==> dirty@[e] == dirty_before(
                                m,
                                e as usize,
                                c as int,
                                mi as int,
                            ),
                        found ==> forall|e: int|
                            0 <= e < n_chunks ==> dirty@[e] == dirty_before(
                                m,
                                e as usize,
                                c as int,
                                mi + 1,
                            ),
                    decreases conns_len - j,
                {
                    let t = compilation.module_graph.connections[mo][j];
                    proof {
                        assert(targets[j as int] == t);
                        assert(t < m.connections.len());
                    }
                    if entry_of[t].len() > 0 {
                        proof {
                            assert(entry_of@[t as int]@.contains(entry_of@[t as int]@[0]));
                            assert(belongs_to_entry_chunk(m, t, entry_of@[t as int]@[0]));
                            assert(hits_entry(m, t));
                            lemma_first_hit_index(m, targets);
                            assert(first_hit_index(m, targets) == j as int);
                        }
                        let ghost dirty_start = dirty@;
                        mark_all_dirty(&mut dirty, &entry_of[t]);
                        found = true;
                        proof {
                            assert forall|e: int| 0 <= e < n_chunks implies dirty@[e]
                                == dirty_before(m, e as usize, c as int, mi + 1) by {
                                if dirty@[e] {
                                    if dirty_start[e] {
                                        assert(dirty_before(m, e as usize, c as int, mi as int));
                                        let (c2, i2) = choose|c2: int, i2: int|
                                            0 <= c2 < m.chunks.len() && 0 <= i2
                                                < m.chunk_modules[c2].len() && (c2 < c as int || (
                                            c2 == c as int && i2 < mi as int)) && !is_entry_chunk(
                                                m,
                                                c2 as usize,
                                            ) && module_marks(m, m.chunk_modules[c2][i2], e as usize);
                                        assert(dirty_before(m, e as usize, c as int, mi + 1));
                                    } else {
                                        assert(entry_of@[t as int]@.contains(e as usize));
                                        assert(belongs_to_entry_chunk(m, t, e as usize));
                                        assert(module_marks(m, mo, e as usize));
                                        assert(dirty_before(m, e as usize, c as int, mi + 1));
                                    }
                                }
                                if dirty_before(m, e as usize, c as int, mi + 1) {
                                    let (c2, i2) = choose|c2: int, i2: int|
                                        0 <= c2 < m.chunks.len() && 0 <= i2 < m.chunk_modules[c2].len()
                                            && (c2 < c as int || (c2 == c as int && i2 < mi + 1))
                                            && !is_entry_chunk(m, c2 as usize) && module_marks(
                                            m,
                                            m.chunk_modules[c2][i2],
                                            e as usize,
                                        );
                                    if c2 == c as int && i2 == mi as int {
                                        assert(module_marks(m, mo, e as usize));
                                        assert(belongs_to_entry_chunk(m, t, e as usize));
                                        assert(entry_of@[t as int]@.contains(e as usize));
                                        assert(dirty@[e]);
                                    } else {
                                        assert(dirty_before(m, e as usize, c as int, mi as int));
                                        assert(dirty_start[e]);
                                        assert(dirty@[e]);
                                    }
                                }
                            }
                        }
                        j += 1;
                    } else {
                        proof {
                            if hits_entry(m, t) {
                                let e2 = choose|e2: usize| belongs_to_entry_chunk(m, t, e2);
                                assert(entry_of@[t as int]@.contains(e2));
                            }
                            assert(!hits_entry(m, t));
                        }
                        j += 1;
                    }
                }
                proof {
                    if !found {
                        lemma_first_hit_index(m, targets);
                        assert(first_hit_index(m, targets) == targets.len());
                        assert forall|e: int| 0 <= e < n_chunks implies dirty@[e] == dirty_before(
                            m,
                            e as usize,
                            c as int,
                            mi + 1,
                        ) by {
                            if dirty_before(m, e as usize, c as int, mi + 1) {
                                let (c2, i2) = choose|c2: int, i2: int|
                                    0 <= c2 < m.chunks.len() && 0 <= i2 < m.chunk_modules[c2].len()
                                        && (c2 < c as int || (c2 == c as int && i2 < mi + 1))
                                        && !is_entry_chunk(m, c2 as usize) && module_marks(
                                        m,
                                        m.chunk_modules[c2][i2],
                                        e as usize,
                                    );
                                if c2 == c as int && i2 == mi as int {
                                    assert(module_marks(m, mo, e as usize));
                                    assert(false);
                                } else {
                                    assert(dirty_before(m, e as usize, c as int, mi as int));
                                }
                            }
                            if dirty_before(m, e as usize, c as int, mi as int) {
                                assert(dirty_before(m, e as usize, c as int, mi + 1));
                            }
                        }
                    }
                }
                mi += 1;
            }
            proof {
                assert forall|e: int| 0 <= e < n_chunks implies dirty@[e] == dirty_before(
                    m,
                    e as usize,
                    c + 1,
                    0,
                ) by {
                    if dirty_before(m, e as usize, c as int, mods_len as int) {
                        assert(dirty_before(m, e as usize, c + 1, 0));
                    }
                    if dirty_before(m, e as usize, c + 1, 0) {
                        let (c2, i2) = choose|c2: int, i2: int|
                            0 <= c2 < m.chunks.len() && 0 <= i2 < m.chunk_modules[c2].len() && (c2
                                < c + 1 || (c2 == c + 1 && i2 < 0)) && !is_entry_chunk(
                                m,
                                c2 as usize,
                            ) && module_marks(m, m.chunk_modules[c2][i2], e as usize);
                        assert(dirty_before(m, e as usize, c as int, mods_len as int));
                    }
                }
            }
        } else {
            proof {
                assert(is_entry_chunk(m, c as usize));
                assert forall|e: int| 0 <= e < n_chunks implies dirty@[e] == dirty_before(
                    m,
                    e as usize,
                    c + 1,
                    0,
                ) by {
                    if dirty_before(m, e as usize, c + 1, 0) {
                        let (c2, i2) = choose|c2: int, i2: int|
                            0 <= c2 < m.chunks.len() && 0 <= i2 < m.chunk_modules[c2].len() && (c2
                                < c + 1 || (c2 == c + 1 && i2 < 0)) && !is_entry_chunk(
                                m,
                                c2 as usize,
                            ) && module_marks(m, m.chunk_modules[c2][i2], e as usize);
                        assert(c2 != c as int);
                        assert(dirty_before(m, e as usize, c as int, 0));
                    }
                    if dirty_before(m, e as usize, c as int, 0) {
                        assert(dirty_before(m, e as usize, c + 1, 0));
                    }
                }
            }
        }
        c += 1;
    }
    proof {
        assert forall|e: int| 0 <= e < n_chunks implies dirty@[e] == spec_dirty(m, e as usize) by {
            if dirty@[e] {
                let (c2, i2) = choose|c2: int, i2: int|
                    0 <= c2 < m.chunks.len() && 0 <= i2 < m.chunk_modules[c2].len() && (c2
                        < n_chunks as int || (c2 == n_chunks as int && i2 < 0)) && !is_entry_chunk(
                        m,
                        c2 as usize,
                    ) && module_marks(m, m.chunk_modules[c2][i2], e as usize);
                let c3 = c2 as usize;
                assert(c3 < m.chunks.len() && !is_entry_chunk(m, c3) && 0 <= i2
                    < m.chunk_modules[c3 as int].len() && module_marks(
                    m,
                    m.chunk_modules[c3 as int][i2],
                    e as usize,
                ));
                assert(spec_dirty(m, e as usize));
            }
            if spec_dirty(m, e as usize) {
                let (c2, i2) = choose|c2: usize, i2: int|
                    c2 < m.chunks.len() && !is_entry_chunk(m, c2) && 0 <= i2 < m.chunk_modules[c2 as int].len()
                        && module_marks(m, m.chunk_modules[c2 as int][i2], e as usize);
                let c3 = c2 as int;
                assert(0 <= c3 < m.chunks.len() && 0 <= i2 < m.chunk_modules[c3].len() && (c3
                    < n_chunks as int || (c3 == n_chunks as int && i2 < 0)) && !is_entry_chunk(
                    m,
                    c3 as usize,
                ) && module_marks(m, m.chunk_modules[c3][i2], e as usize));
                assert(dirty_before(m, e as usize, n_chunks as int, 0));
            }
        }
    }
    dirty
}

/// Relocate the contents of one dirty entry chunk into a freshly allocated
/// chunk, as one unit: every module moves, the owner entry point's runtime
/// designation follows when it pointed at the entry chunk, and the fresh
/// chunk joins every group the entry chunk belongs to.
pub fn relocate_entry_chunk(compilation: &mut Compilation, entry_chunk: usize, owner: usize)
    requires
        entry_chunk < old(compilation)@.chunks.len(),
        old(compilation)@.chunk_modules.len() == old(compilation)@.chunks.len(),
        old(compilation)@.chunk_entry_modules.len() == old(compilation)@.chunks.len(),
        owner < old(compilation)@.chunk_groups.len(),
        old(compilation)@.chunk_groups[owner as int].kind is Entrypoint,
        forall|i: int|
            0 <= i < old(compilation)@.chunks[entry_chunk as int].groups.len() ==> (#[trigger] old(
                compilation,
            )@.chunks[entry_chunk as int].groups[i]) < old(compilation)@.chunk_groups.len(),
    ensures
        final(compilation)@ == spec_relocate(old(compilation)@, entry_chunk, owner),
{
    let ghost m0 = compilation@;
    let entry_modules = compilation.chunk_graph.get_chunk_modules(entry_chunk);
    let new_chunk = compilation.add_chunk();
    compilation.record_chunk_add(new_chunk);
    compilation.chunk_graph.add_chunk(new_chunk);
    let ghost m3 = spec_graph_add_chunk(
        spec_record_chunk_add(spec_add_chunk(m0), new_chunk),
    );
    proof {
        assert(compilation@ =~~= m3);
    }
    if compilation.chunk_groups[owner].get_runtime_chunk() == entry_chunk {
        compilation.chunk_groups[owner].set_runtime_chunk(new_chunk);
        proof {
            assert(compilation@ =~~= spec_set_runtime_chunk(m3, owner, new_chunk));
        }
    }
    let ghost m4 = if runtime_chunk_of(m3, owner) == entry_chunk {
        spec_set_runtime_chunk(m3, owner, new_chunk)
    } else {
        m3
    };
    let mut i: usize = 0;
    while i < entry_modules.len()
        invariant
            entry_chunk < m0.chunks.len(),
            new_chunk == m0.chunks.len(),
            i <= entry_modules@.len(),
            compilation@ == spec_move_modules(
                m4,
                entry_chunk,
                new_chunk,
                owner,
                entry_modules@.take(i as int),
            ),
            m4.chunk_modules.len() == m0.chunks.len() + 1,
            m4.chunk_entry_modules.len() == m0.chunks.len() + 1,
        decreases entry_modules@.len() - i,
    {
        let ghost prev = compilation@;
        proof {
            lemma_move_modules_shape(
                m4,
                entry_chunk,
                new_chunk,
                owner,
                entry_modules@.take(i as int),
            );
        }
        let module = entry_modules[i];
        compilation.chunk_graph.disconnect_chunk_and_entry_module(entry_chunk, module);
        proof {
            assert(compilation@ =~~= spec_disconnect_entry_module(prev, entry_chunk, module));
        }
        let ghost s1 = spec_disconnect_entry_module(prev, entry_chunk, module);
        compilation.chunk_graph.disconnect_chunk_and_module(entry_chunk, module);
        proof {
            assert(compilation@ =~~= spec_disconnect_module(s1, entry_chunk, module));
        }
        let ghost s2 = spec_disconnect_module(s1, entry_chunk, module);
        compilation.chunk_graph.connect_chunk_and_module(new_chunk, module);
        proof {
            assert(compilation@ =~~= spec_connect_module(s2, new_chunk, module));
        }
        let ghost s3 = spec_connect_module(s2, new_chunk, module);
        compilation.chunk_graph.connect_chunk_and_entry_module(new_chunk, module, owner);
        proof {
            assert(compilation@ =~~= spec_connect_entry_module(s3, new_chunk, module, owner));
            assert(entry_modules@.take(i + 1).drop_last() =~= entry_modules@.take(i as int));
            assert(entry_modules@.take(i + 1).last() == entry_modules@[i as int]);
            assert(compilation@ == spec_move_modules(
                m4,
                entry_chunk,
                new_chunk,
                owner,
                entry_modules@.take(i + 1),
            ));
        }
        i += 1;
    }
    proof {
        assert(entry_modules@.take(entry_modules@.len() as int) =~= entry_modules@);
        lemma_move_modules_shape(m4, entry_chunk, new_chunk, owner, entry_modules@);
    }
    compilation.split_chunk(entry_chunk, new_chunk);
    proof {
        assert(compilation@ == spec_relocate(m0, entry_chunk, owner));
    }
}

/// The entry-export containment pass: detect entry chunks whose modules are
/// referenced by modules living in other chunks, and relocate each such
/// chunk's whole module set into a fresh ordinary chunk, so no other chunk
/// depends on an entry chunk for its exports.
///
/// The result is exactly the relocation fold over the dirty entry chunks, in
/// order of first appearance among the entry points.
pub fn ensure_entry_exports(compilation: &mut Compilation)
    requires
        wf(old(compilation)@),
    ensures
        final(compilation)@ == apply_relocations(
            old(compilation)@,
            dirty_targets(old(compilation)@),
        ),
        wf(final(compilation)@),
{
    let ghost m0 = compilation@;
    let (is_entry, owner, entry_of) = collect_entry_info(compilation);
    let dirty = compute_dirty_flags(compilation, &is_entry, &entry_of);
    let n_chunks = compilation.chunks.len();
    let ghost eps = m0.entrypoints;
    let mut processed: Vec<bool> = vec![false; n_chunks];
    let mut i: usize = 0;
    while i < compilation.entrypoints.len()
        invariant
            wf(m0),
            eps == m0.entrypoints,
            n_chunks == m0.chunks.len(),
            i <= eps.len(),
            compilation@ == apply_relocations(m0, dirty_targets_in(m0, eps.take(i as int))),
            compilation@.entrypoints == eps,
            processed@.len() == n_chunks,
            forall|c: int|
                0 <= c < n_chunks ==> (processed@[c] <==> is_entry_upto(m0, c as usize, i as int)),
            dirty@.len() == n_chunks,
            forall|e: int| 0 <= e < n_chunks ==> dirty@[e] == spec_dirty(m0, e as usize),
            owner@.len() == n_chunks,
            forall|c: int|
                0 <= c < n_chunks && is_entry_chunk(m0, c as usize) ==> owner@[c] == owner_of(
                    m0,
                    c as usize,
                ),
        decreases eps.len() - i,
    {
        let ghost ds = dirty_targets_in(m0, eps.take(i as int));
        let cur_len = compilation.chunks.len();
        proof {
            assert(cur_len == compilation@.chunks.len());
            lemma_apply_relocations_len(m0, ds);
            assert(m0.chunks.len() + ds.len() <= usize::MAX);
            lemma_apply_relocations_shape(m0, ds);
            assert(eps.take(i + 1).drop_last() =~= eps.take(i as int));
            assert(eps.take(i + 1).last() == eps[i as int]);
            lemma_dirty_targets_step(m0, eps.take(i + 1));
        }
        let g = compilation.entrypoints[i];
        proof {
            assert(g == eps[i as int]);
            assert(wf_entrypoint(m0, g));
            assert(compilation@.chunk_groups[g as int].kind is Entrypoint);
            assert(entry_chunk_of(compilation@, g) == entry_chunk_of(m0, g));
        }
        let e = compilation.chunk_groups[g].get_entrypoint_chunk();
        proof {
            assert(e == entry_chunk_of(m0, g));
            assert(e < n_chunks);
            assert(is_entry_chunk(m0, e)) by {
                assert(entry_chunk_of(m0, m0.entrypoints[i as int]) == e);
            }
            assert(entry_chunk_of(m0, eps.take(i + 1).last()) == e);
            // the duplicate test of the step lemma is exactly the processed flag
            assert((exists|w: int|
                0 <= w < i && entry_chunk_of(m0, #[trigger] eps[w]) == e) <==> is_entry_upto(
                m0,
                e,
                i as int,
            )) by {
                if exists|w: int| 0 <= w < i && entry_chunk_of(m0, #[trigger] eps[w]) == e {
                    let w = choose|w: int|
                        0 <= w < i && entry_chunk_of(m0, #[trigger] eps[w]) == e;
                    assert(entry_chunk_of(m0, m0.entrypoints[w]) == e);
                }
                if is_entry_upto(m0, e, i as int) {
                    let w = choose|w: int|
                        0 <= w < i && entry_chunk_of(m0, #[trigger] m0.entrypoints[w]) == e;
                    assert(entry_chunk_of(m0, eps[w]) == e);
                }
            }
            assert((exists|w: int|
                0 <= w < eps.take(i + 1).len() - 1 && entry_chunk_of(
                    m0,
                    #[trigger] eps.take(i + 1)[w],
                ) == e) <==> is_entry_upto(m0, e, i as int)) by {
                if exists|w: int|
                    0 <= w < eps.take(i + 1).len() - 1 && entry_chunk_of(
                        m0,
                        #[trigger] eps.take(i + 1)[w],
                    ) == e {
                    let w = choose|w: int|
                        0 <= w < eps.take(i + 1).len() - 1 && entry_chunk_of(
                            m0,
                            #[trigger] eps.take(i + 1)[w],
                        ) == e;
                    assert(eps.take(i + 1)[w] == eps[w]);
                    assert(exists|w2: int|
                        0 <= w2 < i && entry_chunk_of(m0, #[trigger] eps[w2]) == e);
                }
                if exists|w: int| 0 <= w < i && entry_chunk_of(m0, #[trigger] eps[w]) == e {
                    let w = choose|w: int|
                        0 <= w < i && entry_chunk_of(m0, #[trigger] eps[w]) == e;
                    assert(eps.take(i + 1)[w] == eps[w]);
                    assert(entry_chunk_of(m0, eps.take(i + 1)[w]) == e);
                }
            }
        }
        if !processed[e] {
            processed[e] = true;
            proof {
                assert(!is_entry_upto(m0, e, i as int));
                assert forall|c: int| 0 <= c < n_chunks implies (processed@[c]
                    <==> is_entry_upto(m0, c as usize, i + 1)) by {
                    if c == e as int {
                        assert(entry_chunk_of(m0, m0.entrypoints[i as int]) == e);
                        assert(is_entry_upto(m0, e, i + 1));
                    } else {
                        if is_entry_upto(m0, c as usize, i + 1) && !is_entry_upto(
                            m0,
                            c as usize,
                            i as int,
                        ) {
                            let w = choose|w: int|
                                0 <= w < i + 1 && entry_chunk_of(
                                    m0,
                                    #[trigger] m0.entrypoints[w],
                                ) == c as usize;
                            assert(w == i as int);
                            assert(false);
                        }
                        if is_entry_upto(m0, c as usize, i as int) {
                            let w = choose|w: int|
                                0 <= w < i && entry_chunk_of(m0, #[trigger] m0.entrypoints[w])
                                    == c as usize;
                            assert(is_entry_upto(m0, c as usize, i + 1));
                        }
                    }
                }
            }
            if dirty[e] {
                proof {
                    assert(spec_dirty(m0, e));
                    assert(dirty_targets_in(m0, eps.take(i + 1)) == ds.push(e));
                    assert(exists|i2: int|
                        0 <= i2 < eps.len() && entry_chunk_of(m0, #[trigger] eps[i2]) == e) by {
                        assert(entry_chunk_of(m0, eps[i as int]) == e);
                    }
                    lemma_owner_in(m0, eps, e);
                    let og = owner_of(m0, e);
                    assert(eps.contains(og));
                    let w = choose|w: int| 0 <= w < eps.len() && eps[w] == og;
                    assert(wf_entrypoint(m0, og));
                    assert(owner@[e as int] == og);
                    assert(wf_chunk(m0, e as int));
                    assert(compilation@.chunks[e as int] == m0.chunks[e as int]);
                }
                relocate_entry_chunk(compilation, e, owner[e]);
                proof {
                    assert(ds.push(e).drop_last() =~= ds);
                    assert(ds.push(e).last() == e);
                    assert(compilation@ == apply_relocations(
                        m0,
                        dirty_targets_in(m0, eps.take(i + 1)),
                    ));
                }
                let new_len = compilation.chunks.len();
                proof {
                    assert(new_len == compilation@.chunks.len());
                    lemma_apply_relocations_len(m0, ds.push(e));
                    lemma_apply_relocations_shape(m0, ds.push(e));
                    assert(compilation@.entrypoints == eps);
                }
            } else {
                proof {
                    assert(!spec_dirty(m0, e));
                    assert(dirty_targets_in(m0, eps.take(i + 1)) == ds);
                }
            }
        } else {
            proof {
                assert(is_entry_upto(m0, e, i as int));
                assert(dirty_targets_in(m0, eps.take(i + 1)) == ds);
                assert forall|c: int| 0 <= c < n_chunks implies (processed@[c]
                    <==> is_entry_upto(m0, c as usize, i + 1)) by {
                    if is_entry_upto(m0, c as usize, i + 1) && !is_entry_upto(
                        m0,
                        c as usize,
                        i as int,
                    ) {
                        let w = choose|w: int|
                            0 <= w < i + 1 && entry_chunk_of(m0, #[trigger] m0.entrypoints[w])
                                == c as usize;
                        assert(w == i as int);
                        assert(c == e as int);
                        assert(is_entry_upto(m0, e, i as int));
                        assert(false);
                    }
                    if is_entry_upto(m0, c as usize, i as int) {
                        let w = choose|w: int|
                            0 <= w < i && entry_chunk_of(m0, #[trigger] m0.entrypoints[w])
                                == c as usize;
                        assert(is_entry_upto(m0, c as usize, i + 1));
                    }
                }
            }
        }
        i += 1;
    }
    let total = compilation.chunks.len();
    let total_groups = compilation.chunk_groups.len();
    proof {
        assert(eps.take(eps.len() as int) =~= eps);
        assert(total == compilation@.chunks.len());
        assert(total_groups == compilation@.chunk_groups.len());
        lemma_apply_relocations_len(m0, dirty_targets(m0));
        lemma_apply_relocations_shape(m0, dirty_targets(m0));
        lemma_dirty_targets_props(m0, eps);
        lemma_apply_relocations_wf(m0, dirty_targets(m0));
    }
}

/// Copy a runtime-applicability spec, as a snapshot.
fn copy_runtime(v: &Vec<u64>) -> (r: Vec<u64>)
    ensures
        r@ == v@,
{
    let mut out: Vec<u64> = Vec::new();
    let mut i: usize = 0;
    while i < v.len()
        invariant
            i <= v@.len(),
            out@ == v@.subrange(0, i as int),
        decreases v@.len() - i,
    {
        out.push(v[i]);
        proof {
            assert(out@ =~= v@.subrange(0, i + 1 as int));
        }
        i += 1;
    }
    proof {
        assert(out@ =~= v@);
    }
    out
}

/// Splitting one runtime chunk appends exactly one chunk and preserves the
/// entry-point structure and every existing chunk record.
pub proof fn lemma_split_runtime_shape(m: CompilationModel, g: usize)
    requires
        m.chunks.len() < usize::MAX,
    ensures
        ({
            let r = spec_split_runtime(m, g);
            &&& r.entrypoints == m.entrypoints
            &&& r.connections == m.connections
            &&& r.chunks.len() == m.chunks.len() + 1
            &&& r.chunk_modules.len() == m.chunk_modules.len() + 1
            &&& r.chunk_entry_modules.len() == m.chunk_entry_modules.len() + 1
            &&& r.chunk_groups.len() == m.chunk_groups.len()
            &&& forall|c: int| 0 <= c < m.chunks.len() ==> r.chunks[c] == m.chunks[c]
            &&& forall|c: int| 0 <= c < m.chunk_modules.len() ==> r.chunk_modules[c]
                == m.chunk_modules[c]
            &&& forall|c: int| 0 <= c < m.chunk_entry_modules.len() ==> r.chunk_entry_modules[c]
                == m.chunk_entry_modules[c]
            &&& forall|g2: int|
                0 <= g2 < m.chunk_groups.len() ==> (#[trigger] r.chunk_groups[g2]).is_initial
                    == m.chunk_groups[g2].is_initial
            &&& forall|g2: usize|
                g2 < m.chunk_groups.len() ==> ((#[trigger] r.chunk_groups[g2 as int].kind)
                    is Entrypoint <==> m.chunk_groups[g2 as int].kind is Entrypoint)
                    && entry_chunk_of(spec_split_runtime(m, g), g2) == entry_chunk_of(m, g2)
        }),
{
}

/// The shape facts of [`lemma_split_runtime_shape`], folded over a whole
/// selection.
pub proof fn lemma_apply_runtime_splits_len(m0: CompilationModel, sel: Seq<usize>)
    ensures
        apply_runtime_splits(m0, sel).chunks.len() == m0.chunks.len() + sel.len(),
    decreases sel.len(),
{
    if sel.len() > 0 {
        lemma_apply_runtime_splits_len(m0, sel.drop_last());
    }
}

pub proof fn lemma_apply_runtime_splits_shape(m0: CompilationModel, sel: Seq<usize>)
    requires
        m0.chunks.len() + sel.len() <= usize::MAX,
    ensures
        ({
            let r = apply_runtime_splits(m0, sel);
            &&& r.entrypoints == m0.entrypoints
            &&& r.connections == m0.connections
            &&& r.chunks.len() == m0.chunks.len() + sel.len()
            &&& r.chunk_modules.len() == m0.chunk_modules.len() + sel.len()
            &&& r.chunk_entry_modules.len() == m0.chunk_entry_modules.len() + sel.len()
            &&& r.chunk_groups.len() == m0.chunk_groups.len()
            &&& forall|c: int| 0 <= c < m0.chunks.len() ==> r.chunks[c] == m0.chunks[c]
            &&& forall|g2: int|
                0 <= g2 < m0.chunk_groups.len() ==> (#[trigger] r.chunk_groups[g2]).is_initial
                    == m0.chunk_groups[g2].is_initial
            &&& forall|g2: usize|
                g2 < m0.chunk_groups.len() ==> ((#[trigger] r.chunk_groups[g2 as int].kind)
                    is Entrypoint <==> m0.chunk_groups[g2 as int].kind is Entrypoint)
                    && entry_chunk_of(apply_runtime_splits(m0, sel), g2) == entry_chunk_of(m0, g2)
        }),
    decreases sel.len(),
{
    if sel.len() > 0 {
        lemma_apply_runtime_splits_shape(m0, sel.drop_last());
        lemma_split_runtime_shape(apply_runtime_splits(m0, sel.drop_last()), sel.last());
    }
}

/// Split the runtime bootstrap of entry point `g` into a dedicated chunk:
/// the fresh chunk becomes the designated runtime chunk, loads first in
/// `g`'s ordering, snapshots the entry chunk's runtime-applicability spec,
/// carries the "runtime" name hint, and may never be merged away.
pub fn split_runtime_for(compilation: &mut Compilation, g: usize)
    requires
        g < old(compilation)@.chunk_groups.len(),
        old(compilation)@.chunk_groups[g as int].kind is Entrypoint,
        entry_chunk_of(old(compilation)@, g) < old(compilation)@.chunks.len(),
        old(compilation)@.chunk_modules.len() == old(compilation)@.chunks.len(),
        old(compilation)@.chunk_entry_modules.len() == old(compilation)@.chunks.len(),
    ensures
        final(compilation)@ == spec_split_runtime(old(compilation)@, g),
{
    let ghost m0 = compilation@;
    let entry_chunk = compilation.chunk_groups[g].get_entrypoint_chunk();
    let new_chunk = compilation.add_chunk();
    compilation.record_chunk_add(new_chunk);
    compilation.chunk_graph.add_chunk(new_chunk);
    let ghost m3 = spec_graph_add_chunk(spec_record_chunk_add(spec_add_chunk(m0), new_chunk));
    proof {
        assert(compilation@ =~~= m3);
    }
    compilation.chunk_groups[g].set_runtime_chunk(new_chunk);
    proof {
        assert(compilation@ =~~= spec_set_runtime_chunk(m3, g, new_chunk));
    }
    let ghost m4 = spec_set_runtime_chunk(m3, g, new_chunk);
    compilation.chunk_groups[g].unshift_chunk(new_chunk);
    proof {
        assert(compilation@ =~~= spec_unshift_chunk(m4, g, new_chunk));
    }
    let ghost m5 = spec_unshift_chunk(m4, g, new_chunk);
    proof {
        assert(entry_chunk == entry_chunk_of(m0, g));
        assert(compilation@.chunks == m5.chunks);
        assert(m5.chunks == m3.chunks);
        assert(m3.chunks == m0.chunks.push(empty_chunk()));
        assert(m3.chunks[entry_chunk as int] == m0.chunks[entry_chunk as int]);
    }
    let runtime = copy_runtime(compilation.chunks[entry_chunk].runtime());
    proof {
        assert(runtime@ == m0.chunks[entry_chunk as int].runtime);
    }
    compilation.chunks[new_chunk].set_runtime(runtime);
    proof {
        assert(compilation@ =~~= spec_set_runtime(
            m5,
            new_chunk,
            m0.chunks[entry_chunk as int].runtime,
        ));
    }
    let ghost m6 = spec_set_runtime(m5, new_chunk, m0.chunks[entry_chunk as int].runtime);
    compilation.chunks[new_chunk].add_id_name_hints("runtime".to_owned());
    proof {
        assert(compilation@ =~~= spec_add_id_name_hint(m6, new_chunk, "runtime"@));
    }
    let ghost m7 = spec_add_id_name_hint(m6, new_chunk, "runtime"@);
    compilation.chunks[new_chunk].set_prevent_integration(true);
    proof {
        assert(compilation@ =~~= spec_set_prevent_integration(m7, new_chunk, true));
    }
    let ghost m8 = spec_set_prevent_integration(m7, new_chunk, true);
    compilation.chunks[new_chunk].add_group(g);
    proof {
        assert(compilation@ =~~= spec_chunk_add_group(m8, new_chunk, g));
        assert(compilation@ == spec_split_runtime(m0, g));
    }
}

/// The runtime/entry separation pass: every entry point whose runtime chunk
/// is still its entry chunk, while some initial group containing that chunk
/// has more than one member, gets a dedicated runtime chunk.
///
/// The result is exactly the split fold over the selected entry points, in
/// configuration order; selection reads only the pre-pass state.
pub fn optimize_runtime_chunks(compilation: &mut Compilation)
    requires
        wf(old(compilation)@),
    ensures
        final(compilation)@ == apply_runtime_splits(
            old(compilation)@,
            selected_entrypoints(old(compilation)@),
        ),
        wf(final(compilation)@),
{
    let ghost m0 = compilation@;
    let ghost eps = m0.entrypoints;
    let mut to_split: Vec<usize> = Vec::new();
    let mut i: usize = 0;
    while i < compilation.entrypoints.len()
        invariant
            wf(m0),
            m0 == compilation@,
            eps == m0.entrypoints,
            i <= eps.len(),
            to_split@ == selected_in(m0, eps.take(i as int)),
            forall|k: int| 0 <= k < to_split@.len() ==> wf_entrypoint(m0, #[trigger] to_split@[k]),
        decreases eps.len() - i,
    {
        let g = compilation.entrypoints[i];
        proof {
            assert(g == eps[i as int]);
            assert(wf_entrypoint(m0, g));
            assert(eps.take(i + 1).drop_last() =~= eps.take(i as int));
            assert(eps.take(i + 1).last() == eps[i as int]);
        }
        let runtime_chunk = compilation.chunk_groups[g].get_runtime_chunk();
        let entry_chunk = compilation.chunk_groups[g].get_entrypoint_chunk();
        if runtime_chunk == entry_chunk {
            proof {
                assert(wf_chunk(m0, entry_chunk as int));
            }
            let ghost gl = m0.chunks[entry_chunk as int].groups;
            let n_groups = compilation.chunks[entry_chunk].groups.len();
            let mut gi: usize = 0;
            let mut has_multi = false;
            while gi < n_groups && !has_multi
                invariant
                    wf(m0),
                    m0 == compilation@,
                    gi <= n_groups,
                    entry_chunk < m0.chunks.len(),
                    gl == m0.chunks[entry_chunk as int].groups,
                    n_groups == gl.len(),
                    wf_chunk(m0, entry_chunk as int),
                    !has_multi ==> forall|w: int|
                        0 <= w < gi ==> !(m0.chunk_groups[#[trigger] gl[w] as int].is_initial
                            && m0.chunk_groups[gl[w] as int].chunks.len() > 1),
                    has_multi ==> exists|w: int|
                        0 <= w < gl.len() && (#[trigger] gl[w]) < m0.chunk_groups.len()
                            && m0.chunk_groups[gl[w] as int].is_initial
                            && m0.chunk_groups[gl[w] as int].chunks.len() > 1,
                decreases n_groups - gi,
            {
                let gk = compilation.chunks[entry_chunk].groups[gi];
                proof {
                    assert(gl[gi as int] == gk);
                    assert(gk < m0.chunk_groups.len());
                }
                if compilation.chunk_groups[gk].is_initial && compilation.chunk_groups[gk].chunks.len()
                    > 1 {
                    has_multi = true;
                }
                gi += 1;
            }
            if has_multi {
                to_split.push(g);
                proof {
                    assert(spec_needs_split(m0, g));
                    assert(to_split@.drop_last() =~= selected_in(m0, eps.take(i as int)));
                    assert(to_split@ == selected_in(m0, eps.take(i + 1)));
                }
            } else {
                proof {
                    if spec_needs_split(m0, g) {
                        let w = choose|w: int|
                            0 <= w < gl.len() && (#[trigger] gl[w]) < m0.chunk_groups.len()
                                && m0.chunk_groups[gl[w] as int].is_initial
                                && m0.chunk_groups[gl[w] as int].chunks.len() > 1;
                        assert(false);
                    }
                    assert(to_split@ == selected_in(m0, eps.take(i + 1)));
                }
            }
        } else {
            proof {
                assert(!spec_needs_split(m0, g));
                assert(to_split@ == selected_in(m0, eps.take(i + 1)));
            }
        }
        i += 1;
    }
    proof {
        assert(eps.take(eps.len() as int) =~= eps);
        assert(to_split@ == selected_entrypoints(m0));
    }
    let ghost sel = to_split@;
    let mut k: usize = 0;
    while k < to_split.len()
        invariant
            wf(m0),
            sel == to_split@,
            sel == selected_entrypoints(m0),
            forall|k2: int| 0 <= k2 < sel.len() ==> wf_entrypoint(m0, #[trigger] sel[k2]),
            k <= sel.len(),
            compilation@ == apply_runtime_splits(m0, sel.take(k as int)),
        decreases sel.len() - k,
    {
        let g = to_split[k];
        let cur_len = compilation.chunks.len();
        proof {
            assert(cur_len == compilation@.chunks.len());
            lemma_apply_runtime_splits_len(m0, sel.take(k as int));
            assert(m0.chunks.len() + k <= usize::MAX);
            lemma_apply_runtime_splits_shape(m0, sel.take(k as int));
            assert(wf_entrypoint(m0, g));
            assert(entry_chunk_of(compilation@, g) == entry_chunk_of(m0, g));
        }
        split_runtime_for(compilation, g);
        proof {
            assert(sel.take(k + 1).drop_last() =~= sel.take(k as int));
            assert(sel.take(k + 1).last() == sel[k as int]);
            assert(compilation@ == apply_runtime_splits(m0, sel.take(k + 1)));
        }
        k += 1;
    }
    let total = compilation.chunks.len();
    proof {
        assert(sel.take(sel.len() as int) =~= sel);
        assert(total == compilation@.chunks.len());
        lemma_apply_runtime_splits_len(m0, sel);
        lemma_selected_in_distinct(m0, eps);
        lemma_apply_runtime_splits_wf(m0, sel);
    }
}

/// Selection precision, one direction of the bookkeeping: an entry point is
/// in the selection exactly when it is listed in `eps` and meets the
/// runtime-split condition.
pub proof fn lemma_selected_in_contains(m: CompilationModel, eps: Seq<usize>, g: usize)
    ensures
        selected_in(m, eps).contains(g) <==> (eps.contains(g) && spec_needs_split(m, g)),
    decreases eps.len(),
{
    if eps.len() == 0 {
        if eps.contains(g) {
            let w = choose|w: int| 0 <= w < eps.len() && eps[w] == g;
        }
        if selected_in(m, eps).contains(g) {
            let w = choose|w: int| 0 <= w < selected_in(m, eps).len() && selected_in(m, eps)[w] == g;
        }
    } else {
        lemma_selected_in_contains(m, eps.drop_last(), g);
        let pre = selected_in(m, eps.drop_last());
        let cur = selected_in(m, eps);
        if cur.contains(g) {
            let w = choose|w: int| 0 <= w < cur.len() && cur[w] == g;
            if w < pre.len() {
                assert(pre[w] == g);
                assert(pre.contains(g));
                let w2 = choose|w2: int| 0 <= w2 < eps.drop_last().len() && eps.drop_last()[w2] == g;
                assert(eps[w2] == g);
                assert(eps.contains(g));
            } else {
                assert(g == eps.last());
                assert(eps.contains(g)) by {
                    assert(eps[eps.len() - 1] == g);
                }
                assert(spec_needs_split(m, g));
            }
        }
        if eps.contains(g) && spec_needs_split(m, g) {
            let w = choose|w: int| 0 <= w < eps.len() && eps[w] == g;
            if w < eps.len() - 1 {
                assert(eps.drop_last()[w] == g);
                assert(eps.drop_last().contains(g));
                assert(pre.contains(g));
                let w2 = choose|w2: int| 0 <= w2 < pre.len() && pre[w2] == g;
                if spec_needs_split(m, eps.last()) {
                    assert(cur[w2] == g);
                } else {
                    assert(cur[w2] == g);
                }
                assert(cur.contains(g));
            } else {
                assert(eps.last() == g);
                assert(cur[cur.len() - 1] == g);
                assert(cur.contains(g));
            }
        }
    }
}

/// Selection precision: the runtime-separation pass selects an entry point
/// if and only if its runtime chunk is still its entry chunk and some
/// initial group containing that chunk has more than one member chunk.
/// Entry points already split, or whose initial groups are single-chunk, are
/// left untouched.
pub proof fn lemma_selection_precision(m: CompilationModel, g: usize)
    requires
        m.entrypoints.contains(g),
    ensures
        selected_entrypoints(m).contains(g) <==> spec_needs_split(m, g),
{
    lemma_selected_in_contains(m, m.entrypoints, g);
}

/// The selection lists pairwise distinct entry points whenever the
/// entry-point list itself is duplicate-free.
pub proof fn lemma_selected_in_distinct(m: CompilationModel, eps: Seq<usize>)
    requires
        distinct(eps),
    ensures
        distinct(selected_in(m, eps)),
        forall|k: int| 0 <= k < selected_in(m, eps).len() ==> eps.contains(
            #[trigger] selected_in(m, eps)[k],
        ),
    decreases eps.len(),
{
    if eps.len() > 0 {
        assert(distinct(eps.drop_last())) by {
            assert(forall|i: int, j: int|
                0 <= i < j < eps.drop_last().len() ==> eps.drop_last()[i] == eps[i]
                    && eps.drop_last()[j] == eps[j]);
        }
        lemma_selected_in_distinct(m, eps.drop_last());
        let pre = selected_in(m, eps.drop_last());
        let cur = selected_in(m, eps);
        assert forall|k: int| 0 <= k < cur.len() implies eps.contains(#[trigger] cur[k]) by {
            if k < pre.len() {
                assert(cur[k] == pre[k]);
                assert(eps.drop_last().contains(pre[k]));
                let w = choose|w: int|
                    0 <= w < eps.drop_last().len() && eps.drop_last()[w] == pre[k];
                assert(eps[w] == pre[k]);
            } else {
                assert(cur[k] == eps.last());
                assert(eps[eps.len() - 1] == eps.last());
            }
        }
        if cur.len() > pre.len() {
            assert forall|i: int, j: int| 0 <= i < j < cur.len() implies cur[i] != cur[j] by {
                if j == cur.len() - 1 {
                    assert(cur[j] == eps.last());
                    assert(eps.drop_last().contains(pre[i]) || true);
                    if cur[i] == eps.last() {
                        assert(pre[i] == eps.last());
                        assert(eps.drop_last().contains(pre[i]));
                        let w = choose|w: int|
                            0 <= w < eps.drop_last().len() && eps.drop_last()[w] == pre[i];
                        assert(eps[w] == eps[eps.len() - 1]);
                        assert(false);
                    }
                }
            }
        }
    }
}

/// The runtime-separation postcondition, for every selected entry point: the
/// pass over, its runtime chunk is the freshly created chunk and differs
/// from its entry chunk, the fresh chunk stands first in the entry point's
/// chunk ordering, the fresh chunk's runtime-applicability spec equals the
/// entry chunk's spec at selection time, and its prevent-integration flag is
/// set.
pub proof fn lemma_runtime_separation(m: CompilationModel, sel: Seq<usize>, k: int)
    requires
        wf(m),
        m.chunks.len() + sel.len() <= usize::MAX,
        distinct(sel),
        forall|k2: int| 0 <= k2 < sel.len() ==> wf_entrypoint(m, #[trigger] sel[k2]),
        0 <= k < sel.len(),
    ensures
        ({
            let r = apply_runtime_splits(m, sel);
            let g = sel[k];
            let fresh = (m.chunks.len() + k) as usize;
            &&& runtime_chunk_of(r, g) == fresh
            &&& entry_chunk_of(r, g) == entry_chunk_of(m, g)
            &&& fresh != entry_chunk_of(r, g)
            &&& r.chunk_groups[g as int].chunks.len() > 0
            &&& r.chunk_groups[g as int].chunks[0] == fresh
            &&& fresh < r.chunks.len()
            &&& r.chunks[fresh as int].runtime == m.chunks[entry_chunk_of(m, g) as int].runtime
            &&& r.chunks[fresh as int].prevent_integration
        }),
    decreases sel.len(),
{
    let r = apply_runtime_splits(m, sel);
    let g = sel[k];
    let fresh = (m.chunks.len() + k) as usize;
    let prev = apply_runtime_splits(m, sel.drop_last());
    lemma_apply_runtime_splits_shape(m, sel.drop_last());
    lemma_split_runtime_shape(prev, sel.last());
    if k == sel.len() - 1 {
        assert(g == sel.last());
        assert(prev.chunks.len() == m.chunks.len() + k);
        assert(entry_chunk_of(prev, g) == entry_chunk_of(m, g));
        assert(wf_entrypoint(m, g));
        assert(entry_chunk_of(m, g) < m.chunks.len());
        assert(prev.chunks[entry_chunk_of(m, g) as int] == m.chunks[entry_chunk_of(m, g) as int]);
        assert(prev.chunk_groups[g as int].kind is Entrypoint);
        assert(runtime_chunk_of(r, g) == fresh);
        assert(r.chunk_groups[g as int].chunks[0] == fresh);
        assert(r.chunks[fresh as int].runtime == m.chunks[entry_chunk_of(m, g) as int].runtime);
        assert(r.chunks[fresh as int].prevent_integration);
    } else {
        assert(distinct(sel.drop_last())) by {
            assert(forall|i: int, j: int|
                0 <= i < j < sel.drop_last().len() ==> sel.drop_last()[i] == sel[i]
                    && sel.drop_last()[j] == sel[j]);
        }
        assert(forall|k2: int|
            0 <= k2 < sel.drop_last().len() ==> wf_entrypoint(m, #[trigger] sel.drop_last()[k2]));
        lemma_runtime_separation(m, sel.drop_last(), k);
        assert(sel.drop_last()[k] == g);
        // the last split touches only entry point `sel.last()` and the chunk
        // it creates, which sits above `fresh`
        assert(sel.last() != g);
        assert(g < prev.chunk_groups.len()) by {
            assert(wf_entrypoint(m, g));
        }
        assert(r.chunk_groups[g as int] == spec_split_runtime(prev, sel.last()).chunk_groups[g as int]);
        let gl = sel.last();
        let freshl = prev.chunks.len() as usize;
        assert(prev.chunks.len() == m.chunks.len() + sel.len() - 1);
        assert(fresh < freshl);
        assert(r.chunk_groups[g as int] == prev.chunk_groups[g as int]) by {
            assert(spec_split_runtime(prev, gl).chunk_groups.len() == prev.chunk_groups.len());
        }
        assert(r.chunks[fresh as int] == prev.chunks[fresh as int]);
        assert(entry_chunk_of(r, g) == entry_chunk_of(prev, g));
        assert(runtime_chunk_of(r, g) == runtime_chunk_of(prev, g));
    }
}

/// Filtering keeps a sequence whose elements all pass untouched.
pub proof fn lemma_filter_all(s: Seq<(usize, usize)>, pred: spec_fn((usize, usize)) -> bool)
    requires
        forall|x: int| 0 <= x < s.len() ==> pred(#[trigger] s[x]),
    ensures
        s.filter(pred) == s,
    decreases s.len(),
{
    reveal(Seq::filter);
    if s.len() > 0 {
        assert(forall|x: int| 0 <= x < s.drop_last().len() ==> s.drop_last()[x] == s[x]);
        lemma_filter_all(s.drop_last(), pred);
        assert(s.filter(pred) =~= s);
    }
}

/// Two predicates that agree on every element of a sequence filter it to
/// the same subsequence.
pub proof fn lemma_filter_agree(
    s: Seq<(usize, usize)>,
    p1: spec_fn((usize, usize)) -> bool,
    p2: spec_fn((usize, usize)) -> bool,
)
    requires
        forall|x: int| 0 <= x < s.len() ==> p1(#[trigger] s[x]) == p2(s[x]),
    ensures
        s.filter(p1) == s.filter(p2),
    decreases s.len(),
{
    reveal(Seq::filter);
    if s.len() > 0 {
        assert(forall|x: int| 0 <= x < s.drop_last().len() ==> s.drop_last()[x] == s[x]);
        lemma_filter_agree(s.drop_last(), p1, p2);
    }
}

/// Every record of a filtered sequence occurs in the original.
pub proof fn lemma_filter_elements(s: Seq<(usize, usize)>, pred: spec_fn((usize, usize)) -> bool)
    ensures
        forall|x: int| 0 <= x < s.filter(pred).len() ==> s.contains(#[trigger] s.filter(pred)[x]),
    decreases s.len(),
{
    reveal(Seq::filter);
    if s.len() > 0 {
        lemma_filter_elements(s.drop_last(), pred);
        let hf = s.drop_last().filter(pred);
        assert forall|x: int| 0 <= x < s.filter(pred).len() implies s.contains(
            #[trigger] s.filter(pred)[x],
        ) by {
            if x < hf.len() {
                assert(s.drop_last().contains(hf[x]));
                let w = choose|w: int|
                    0 <= w < s.drop_last().len() && s.drop_last()[w] == hf[x];
                assert(s[w] == hf[x]);
            } else {
                assert(s.filter(pred)[x] == s.last());
                assert(s[s.len() - 1] == s.last());
            }
        }
    }
}

/// Removing the first record keyed `last` from the records that survive the
/// prefix filter yields the records that survive the full filter, when keys
/// are pairwise distinct and `mods` extends `pre_mods` by `last`.
pub proof fn lemma_filter_drop_key(
    entries: Seq<(usize, usize)>,
    pre_mods: Seq<usize>,
    mods: Seq<usize>,
    last: usize,
)
    requires
        distinct_keys(entries),
        mods == pre_mods.push(last),
    ensures
        ({
            let fe_pre = entries.filter(|p: (usize, usize)| !pre_mods.contains(p.0));
            let fe_all = entries.filter(|p: (usize, usize)| !mods.contains(p.0));
            let i = first_key_index(fe_pre, last);
            &&& i < fe_pre.len() ==> fe_pre.remove(i) == fe_all
            &&& i >= fe_pre.len() ==> fe_pre == fe_all
        }),
{
    reveal(Seq::filter);
    let pred_pre = |p: (usize, usize)| !pre_mods.contains(p.0);
    let pred_all = |p: (usize, usize)| !mods.contains(p.0);
    let fe_pre = entries.filter(pred_pre);
    let fe_all = entries.filter(pred_all);
    assert(forall|y: int| 0 <= y < pre_mods.len() ==> mods[y] == pre_mods[y]);
    assert forall|x: usize| pre_mods.contains(x) implies mods.contains(x) by {
        let w = choose|w: int| 0 <= w < pre_mods.len() && pre_mods[w] == x;
        assert(mods[w] == x);
    }
    assert(mods.contains(last)) by {
        assert(mods[mods.len() - 1] == last);
    }
    assert forall|x: usize| mods.contains(x) && x != last implies pre_mods.contains(x) by {
        let w = choose|w: int| 0 <= w < mods.len() && mods[w] == x;
        assert(w < pre_mods.len());
        assert(pre_mods[w] == x);
    }
    lemma_first_key_index(fe_pre, last);
    let i = first_key_index(fe_pre, last);
    if i < fe_pre.len() {
        // some surviving record carries the key `last`; by key distinctness
        // it is the only one, every other record survives both filters the
        // same way, and the full filter drops exactly it
        lemma_filter_remove_key(entries, pred_pre, pred_all, last);
    } else {
        // no surviving record carries the key `last`, so both filters agree
        // on every record of `entries` that survives the prefix filter;
        // records with key `last` do not survive the prefix filter either,
        // so the filters agree everywhere that matters
        lemma_filter_elements(entries, pred_pre);
        assert forall|x: int| 0 <= x < entries.len() implies pred_pre(#[trigger] entries[x])
            == pred_all(entries[x]) by {
            if entries[x].0 == last {
                if pred_pre(entries[x]) {
                    entries.lemma_filter_contains(pred_pre, x);
                    let w = choose|w: int|
                        0 <= w < fe_pre.len() && fe_pre[w] == entries[x];
                    assert(fe_pre[w].0 == last);
                }
            }
        }
        lemma_filter_agree(entries, pred_pre, pred_all);
    }
}

/// The hard case of [`lemma_filter_drop_key`]: when exactly one record with
/// key `last` survives the prefix filter, the full filter equals the prefix
/// filter with that record removed.
proof fn lemma_filter_remove_key(
    entries: Seq<(usize, usize)>,
    pred_pre: spec_fn((usize, usize)) -> bool,
    pred_all: spec_fn((usize, usize)) -> bool,
    last: usize,
)
    requires
        distinct_keys(entries),
        forall|q: (usize, usize)| #![trigger pred_all(q)] #![trigger pred_pre(q)]
            pred_all(q) == (pred_pre(q) && q.0 != last),
        first_key_index(entries.filter(pred_pre), last) < entries.filter(pred_pre).len(),
    ensures
        entries.filter(pred_pre).remove(first_key_index(entries.filter(pred_pre), last))
            == entries.filter(pred_all),
    decreases entries.len(),
{
    reveal(Seq::filter);
    let fe_pre = entries.filter(pred_pre);
    let fe_all = entries.filter(pred_all);
    lemma_first_key_index(fe_pre, last);
    let i = first_key_index(fe_pre, last);
    let head = entries.drop_last();
    let p = entries.last();
    assert(entries.len() > 0) by {
        if entries.len() == 0 {
            assert(fe_pre.len() == 0);
        }
    }
    assert(distinct_keys(head)) by {
        assert(forall|x: int| 0 <= x < head.len() ==> head[x] == entries[x]);
    }
    let h_pre = head.filter(pred_pre);
    let h_all = head.filter(pred_all);
    lemma_first_key_index(h_pre, last);
    if p.0 == last {
        // no record of `head` carries the key `last`
        assert(forall|x: int| 0 <= x < head.len() ==> (#[trigger] head[x]).0 != last) by {
            assert(forall|x: int| 0 <= x < head.len() ==> head[x] == entries[x]);
            assert(entries[entries.len() - 1].0 == last);
        }
        lemma_filter_elements(head, pred_pre);
        assert forall|x: int| 0 <= x < h_pre.len() implies (#[trigger] h_pre[x]).0 != last by {
            assert(head.contains(h_pre[x]));
            let w = choose|w: int| 0 <= w < head.len() && head[w] == h_pre[x];
        }
        assert(pred_pre(p)) by {
            if !pred_pre(p) {
                assert(fe_pre == h_pre);
                assert(fe_pre[i].0 == last);
            }
        }
        assert(fe_pre == h_pre.push(p));
        assert(!pred_all(p));
        assert(fe_all == h_all);
        assert(i == fe_pre.len() - 1) by {
            if i < fe_pre.len() - 1 {
                assert(h_pre[i] == fe_pre[i]);
            }
        }
        assert(fe_pre.remove(i) =~= h_pre);
        assert forall|x: int| 0 <= x < head.len() implies pred_pre(#[trigger] head[x])
            == pred_all(head[x]) by {}
        lemma_filter_agree(head, pred_pre, pred_all);
    } else {
        // the surviving record with key `last` sits in `head`
        assert(first_key_index(h_pre, last) < h_pre.len()) by {
            if pred_pre(p) {
                assert(fe_pre == h_pre.push(p));
                assert(i < fe_pre.len() - 1) by {
                    if i == fe_pre.len() - 1 {
                        assert(fe_pre[i] == p);
                    }
                }
                assert(h_pre[i] == fe_pre[i]);
                if first_key_index(h_pre, last) >= h_pre.len() {
                    assert(h_pre[i].0 != last);
                }
            } else {
                assert(fe_pre == h_pre);
                if first_key_index(h_pre, last) >= h_pre.len() {
                    assert(h_pre[i].0 != last);
                }
            }
        }
        lemma_filter_remove_key(head, pred_pre, pred_all, last);
        let ih = first_key_index(h_pre, last);
        if pred_pre(p) {
            assert(fe_pre == h_pre.push(p));
            assert(ih == i) by {
                assert(h_pre[ih] == fe_pre[ih]);
                assert(fe_pre[i].0 == last);
                if i < ih {
                    assert(h_pre[i] == fe_pre[i]);
                } else if ih < i {
                    assert(fe_pre[ih].0 != last);
                }
            }
            assert(pred_all(p));
            assert(fe_all == h_all.push(p));
            assert(fe_pre.remove(i) =~= h_pre.remove(ih).push(p));
        } else {
            assert(fe_pre == h_pre);
            assert(!pred_all(p));
            assert(fe_all == h_all);
            assert(ih == i);
        }
    }
}

/// Moving the listed modules drains them from `e` and lands them, in order,
/// in `fresh`, pairing each with the owner entry point; the entry records of
/// `e` keyed by a moved module disappear, everything else stays.
pub proof fn lemma_move_modules_facts(
    m: CompilationModel,
    e: usize,
    fresh: usize,
    owner: usize,
    mods: Seq<usize>,
    tail: Seq<usize>,
)
    requires
        e < m.chunk_modules.len(),
        fresh < m.chunk_modules.len(),
        m.chunk_entry_modules.len() == m.chunk_modules.len(),
        e != fresh,
        m.chunk_modules[e as int] == mods + tail,
        distinct(mods + tail),
        forall|x: int| 0 <= x < mods.len() ==> !m.chunk_modules[fresh as int].contains(
            #[trigger] mods[x],
        ),
        distinct_keys(m.chunk_entry_modules[e as int]),
        forall|x: int, y: int|
            0 <= x < m.chunk_entry_modules[fresh as int].len() && 0 <= y < mods.len()
                ==> (#[trigger] m.chunk_entry_modules[fresh as int][x]).0 != (#[trigger] mods[y]),
    ensures
        ({
            let r = spec_move_modules(m, e, fresh, owner, mods);
            &&& r.chunk_modules == m.chunk_modules.update(e as int, tail).update(
                fresh as int,
                m.chunk_modules[fresh as int] + mods,
            )
            &&& r.chunk_entry_modules == m.chunk_entry_modules.update(
                e as int,
                m.chunk_entry_modules[e as int].filter(|p: (usize, usize)| !mods.contains(p.0)),
            ).update(
                fresh as int,
                m.chunk_entry_modules[fresh as int] + mods.map_values(|mo: usize| (mo, owner)),
            )
        }),
    decreases mods.len(),
{
    let r = spec_move_modules(m, e, fresh, owner, mods);
    if mods.len() == 0 {
        assert(mods + tail =~= tail);
        assert(m.chunk_entry_modules[e as int].filter(|p: (usize, usize)| !mods.contains(p.0))
            == m.chunk_entry_modules[e as int]) by {
            assert forall|x: int| 0 <= x < m.chunk_entry_modules[e as int].len() implies !mods.contains(
                (#[trigger] m.chunk_entry_modules[e as int][x]).0,
            ) by {
                if mods.contains(m.chunk_entry_modules[e as int][x].0) {
                    let w = choose|w: int|
                        0 <= w < mods.len() && mods[w] == m.chunk_entry_modules[e as int][x].0;
                }
            }
            lemma_filter_all(
                m.chunk_entry_modules[e as int],
                |p: (usize, usize)| !mods.contains(p.0),
            );
        }
        assert(r.chunk_modules =~~= m.chunk_modules.update(e as int, tail).update(
            fresh as int,
            m.chunk_modules[fresh as int] + mods,
        )) by {
            assert(m.chunk_modules[fresh as int] + mods =~= m.chunk_modules[fresh as int]);
        }
        assert(r.chunk_entry_modules =~~= m.chunk_entry_modules.update(
            e as int,
            m.chunk_entry_modules[e as int].filter(|p: (usize, usize)| !mods.contains(p.0)),
        ).update(
            fresh as int,
            m.chunk_entry_modules[fresh as int] + mods.map_values(|mo: usize| (mo, owner)),
        )) by {
            assert(mods.map_values(|mo: usize| (mo, owner)) =~= Seq::<(usize, usize)>::empty());
            assert(m.chunk_entry_modules[fresh as int] + mods.map_values(|mo: usize| (mo, owner))
                =~= m.chunk_entry_modules[fresh as int]);
        }
    } else {
        let pre_mods = mods.drop_last();
        let last = mods.last();
        assert(mods == pre_mods.push(last));
        assert(pre_mods + (seq![last] + tail) =~= mods + tail);
        assert(forall|x: int| 0 <= x < pre_mods.len() ==> pre_mods[x] == mods[x]);
        lemma_move_modules_facts(m, e, fresh, owner, pre_mods, seq![last] + tail);
        let mid = spec_move_modules(m, e, fresh, owner, pre_mods);
        lemma_move_modules_shape(m, e, fresh, owner, pre_mods);
        assert(r == spec_move_module(mid, e, fresh, owner, last));
        let mid_e_entries = mid.chunk_entry_modules[e as int];
        let mid_e_mods = mid.chunk_modules[e as int];
        assert(mid_e_mods == seq![last] + tail);
        assert(mid_e_mods[0] == last);
        lemma_first_key_index(mid_e_entries, last);
        let s1 = spec_disconnect_entry_module(mid, e, last);
        lemma_first_index(mid_e_mods, last);
        assert(first_index(mid_e_mods, last) == 0);
        let s2 = spec_disconnect_module(s1, e, last);
        assert(s2.chunk_modules[e as int] =~= tail);
        let fresh_mods = mid.chunk_modules[fresh as int];
        assert(fresh_mods == m.chunk_modules[fresh as int] + pre_mods);
        assert(!fresh_mods.contains(last)) by {
            if fresh_mods.contains(last) {
                let w = choose|w: int| 0 <= w < fresh_mods.len() && fresh_mods[w] == last;
                if w < m.chunk_modules[fresh as int].len() {
                    assert(m.chunk_modules[fresh as int][w] == last);
                    assert(m.chunk_modules[fresh as int].contains(mods[mods.len() - 1]));
                } else {
                    let y = w - m.chunk_modules[fresh as int].len();
                    assert(pre_mods[y] == last);
                    assert((mods + tail)[y] == mods[y]);
                    assert((mods + tail)[mods.len() - 1] == last);
                }
            }
        }
        let s3 = spec_connect_module(s2, fresh, last);
        assert(s3.chunk_modules[fresh as int] =~= m.chunk_modules[fresh as int] + mods) by {
            assert(fresh_mods.push(last) =~= m.chunk_modules[fresh as int] + mods);
        }
        let fresh_entries = mid.chunk_entry_modules[fresh as int];
        assert(fresh_entries == m.chunk_entry_modules[fresh as int] + pre_mods.map_values(
            |mo: usize| (mo, owner),
        ));
        lemma_first_key_index(fresh_entries, last);
        assert(first_key_index(fresh_entries, last) == fresh_entries.len()) by {
            if first_key_index(fresh_entries, last) < fresh_entries.len() {
                let w = first_key_index(fresh_entries, last);
                assert(fresh_entries[w].0 == last);
                if w < m.chunk_entry_modules[fresh as int].len() {
                    assert(m.chunk_entry_modules[fresh as int][w].0 != mods[mods.len() - 1]);
                } else {
                    let y = w - m.chunk_entry_modules[fresh as int].len();
                    assert(pre_mods.map_values(|mo: usize| (mo, owner))[y] == (pre_mods[y], owner));
                    assert(pre_mods[y] == last);
                    assert((mods + tail)[y] == mods[y]);
                    assert((mods + tail)[mods.len() - 1] == last);
                }
            }
        }
        assert(r.chunk_entry_modules[fresh as int] =~= m.chunk_entry_modules[fresh as int]
            + mods.map_values(|mo: usize| (mo, owner))) by {
            assert(r.chunk_entry_modules[fresh as int] == fresh_entries.push((last, owner)));
            assert(mods.map_values(|mo: usize| (mo, owner)).len() == mods.len());
            assert(forall|y: int|
                0 <= y < mods.len() ==> mods.map_values(|mo: usize| (mo, owner))[y] == (
                mods[y],
                owner,
            ));
            assert(forall|y: int|
                0 <= y < pre_mods.len() ==> pre_mods.map_values(|mo: usize| (mo, owner))[y] == (
                pre_mods[y],
                owner,
            ));
        }
        let fe_pre = m.chunk_entry_modules[e as int].filter(
            |p: (usize, usize)| !pre_mods.contains(p.0),
        );
        let fe_all = m.chunk_entry_modules[e as int].filter(
            |p: (usize, usize)| !mods.contains(p.0),
        );
        assert(mid_e_entries == fe_pre);
        lemma_filter_drop_key(m.chunk_entry_modules[e as int], pre_mods, mods, last);
        assert(r.chunk_entry_modules[e as int] == fe_all);
        assert(r.chunk_modules =~~= m.chunk_modules.update(e as int, tail).update(
            fresh as int,
            m.chunk_modules[fresh as int] + mods,
        ));
        assert(r.chunk_entry_modules =~~= m.chunk_entry_modules.update(e as int, fe_all).update(
            fresh as int,
            m.chunk_entry_modules[fresh as int] + mods.map_values(|mo: usize| (mo, owner)),
        ));
    }
}

/// What one relocation does to the membership tables: the entry chunk is
/// drained, the fresh chunk receives exactly its former module set (with
/// entry records keyed to the owner), and every other chunk's relations are
/// untouched.
pub proof fn lemma_relocate_facts(m: CompilationModel, e: usize, owner: usize)
    requires
        m.chunks.len() < usize::MAX,
        m.chunk_modules.len() == m.chunks.len(),
        m.chunk_entry_modules.len() == m.chunks.len(),
        e < m.chunks.len(),
        distinct(m.chunk_modules[e as int]),
        distinct_keys(m.chunk_entry_modules[e as int]),
    ensures
        ({
            let r = spec_relocate(m, e, owner);
            let fresh = m.chunks.len() as int;
            &&& r.chunk_modules[e as int] == Seq::<usize>::empty()
            &&& r.chunk_modules[fresh] == m.chunk_modules[e as int]
            &&& forall|c: int|
                0 <= c < m.chunks.len() && c != e ==> r.chunk_modules[c] == m.chunk_modules[c]
            &&& r.chunk_entry_modules[e as int] == m.chunk_entry_modules[e as int].filter(
                |p: (usize, usize)| !m.chunk_modules[e as int].contains(p.0),
            )
            &&& r.chunk_entry_modules[fresh] == m.chunk_modules[e as int].map_values(
                |mo: usize| (mo, owner),
            )
            &&& forall|c: int|
                0 <= c < m.chunks.len() && c != e ==> r.chunk_entry_modules[c]
                    == m.chunk_entry_modules[c]
        }),
{
    let fresh = m.chunks.len() as usize;
    let mods = m.chunk_modules[e as int];
    let m1 = spec_add_chunk(m);
    let m2 = spec_record_chunk_add(m1, fresh);
    let m3 = spec_graph_add_chunk(m2);
    let m4 = if runtime_chunk_of(m3, owner) == e {
        spec_set_runtime_chunk(m3, owner, fresh)
    } else {
        m3
    };
    assert(m4.chunk_modules == m.chunk_modules.push(Seq::<usize>::empty()));
    assert(m4.chunk_entry_modules == m.chunk_entry_modules.push(Seq::<(usize, usize)>::empty()));
    assert(m4.chunk_modules[e as int] == mods);
    assert(m4.chunk_modules[fresh as int] == Seq::<usize>::empty());
    assert(mods + Seq::<usize>::empty() =~= mods);
    assert(distinct(mods + Seq::<usize>::empty()));
    lemma_move_modules_facts(m4, e, fresh, owner, mods, Seq::empty());
    let m5 = spec_move_modules(m4, e, fresh, owner, mods);
    assert(m5.chunk_modules[fresh as int] == Seq::<usize>::empty() + mods);
    assert(Seq::<usize>::empty() + mods =~= mods);
    assert(m5.chunk_entry_modules[fresh as int] == Seq::<(usize, usize)>::empty()
        + mods.map_values(|mo: usize| (mo, owner)));
    assert(Seq::<(usize, usize)>::empty() + mods.map_values(|mo: usize| (mo, owner))
        =~= mods.map_values(|mo: usize| (mo, owner)));
    if e < m5.chunks.len() {
        lemma_split_iter_shape(m5, e, fresh, m5.chunks[e as int].groups);
    }
}

/// The dirty relocation order lists pairwise distinct dirty entry chunks.
pub proof fn lemma_dirty_targets_props(m: CompilationModel, eps: Seq<usize>)
    requires
        eps == m.entrypoints,
        wf(m),
    ensures
        distinct(dirty_targets(m)),
        forall|k: int|
            0 <= k < dirty_targets(m).len() ==> is_entry_chunk(m, #[trigger] dirty_targets(m)[k])
                && dirty_targets(m)[k] < m.chunks.len() && spec_dirty(m, dirty_targets(m)[k]),
{
    lemma_dirty_targets_props_in(m, m.entrypoints);
}

proof fn lemma_dirty_targets_props_in(m: CompilationModel, eps: Seq<usize>)
    requires
        wf(m),
        forall|w: int| 0 <= w < eps.len() ==> m.entrypoints.contains(#[trigger] eps[w]),
    ensures
        distinct(dirty_targets_in(m, eps)),
        forall|k: int|
            0 <= k < dirty_targets_in(m, eps).len() ==> is_entry_chunk(
                m,
                #[trigger] dirty_targets_in(m, eps)[k],
            ) && dirty_targets_in(m, eps)[k] < m.chunks.len() && spec_dirty(
                m,
                dirty_targets_in(m, eps)[k],
            ) && exists|w: int|
                0 <= w < eps.len() && entry_chunk_of(m, #[trigger] eps[w]) == dirty_targets_in(
                    m,
                    eps,
                )[k],
    decreases eps.len(),
{
    if eps.len() > 0 {
        assert(forall|w: int|
            0 <= w < eps.drop_last().len() ==> m.entrypoints.contains(
                #[trigger] eps.drop_last()[w],
            )) by {
            assert(forall|w: int| 0 <= w < eps.drop_last().len() ==> eps.drop_last()[w] == eps[w]);
        }
        lemma_dirty_targets_props_in(m, eps.drop_last());
        lemma_dirty_targets_step(m, eps);
        let pre = dirty_targets_in(m, eps.drop_last());
        let cur = dirty_targets_in(m, eps);
        let e = entry_chunk_of(m, eps.last());
        assert forall|k: int| 0 <= k < cur.len() implies is_entry_chunk(m, #[trigger] cur[k])
            && cur[k] < m.chunks.len() && spec_dirty(m, cur[k]) && exists|w: int|
            0 <= w < eps.len() && entry_chunk_of(m, #[trigger] eps[w]) == cur[k] by {
            if k < pre.len() {
                assert(cur[k] == pre[k]);
                let w = choose|w: int|
                    0 <= w < eps.drop_last().len() && entry_chunk_of(
                        m,
                        #[trigger] eps.drop_last()[w],
                    ) == pre[k];
                assert(eps[w] == eps.drop_last()[w]);
                assert(entry_chunk_of(m, eps[w]) == cur[k]);
            } else {
                assert(cur[k] == e);
                assert(m.entrypoints.contains(eps.last()));
                let w0 = choose|w0: int|
                    0 <= w0 < m.entrypoints.len() && m.entrypoints[w0] == eps.last();
                assert(wf_entrypoint(m, eps.last()));
                assert(is_entry_chunk(m, e)) by {
                    assert(entry_chunk_of(m, m.entrypoints[w0]) == e);
                }
                assert(eps[eps.len() - 1] == eps.last());
                assert(entry_chunk_of(m, eps[eps.len() - 1]) == e);
            }
        }
        if cur.len() > pre.len() {
            // the pushed chunk was not named by any earlier entry point, so
            // it differs from every earlier dirty chunk
            assert forall|i: int, j: int| 0 <= i < j < cur.len() implies cur[i] != cur[j] by {
                if j == cur.len() - 1 {
                    assert(cur[j] == e);
                    assert(cur[i] == pre[i]);
                    let w = choose|w: int|
                        0 <= w < eps.drop_last().len() && entry_chunk_of(
                            m,
                            #[trigger] eps.drop_last()[w],
                        ) == pre[i];
                    if pre[i] == e {
                        assert(0 <= w < eps.len() - 1 && entry_chunk_of(m, eps[w]) == e);
                    }
                } else {
                    assert(cur[i] == pre[i] && cur[j] == pre[j]);
                }
            }
        }
    }
}

/// Every dirty entry chunk appears in the relocation order.
pub proof fn lemma_dirty_targets_contains(m: CompilationModel, eps: Seq<usize>, e: usize)
    requires
        exists|w: int| 0 <= w < eps.len() && entry_chunk_of(m, #[trigger] eps[w]) == e,
        spec_dirty(m, e),
    ensures
        dirty_targets_in(m, eps).contains(e),
    decreases eps.len(),
{
    lemma_dirty_targets_step(m, eps);
    let pre = dirty_targets_in(m, eps.drop_last());
    let cur = dirty_targets_in(m, eps);
    if entry_chunk_of(m, eps.last()) == e {
        if exists|w: int|
            0 <= w < eps.len() - 1 && entry_chunk_of(m, #[trigger] eps[w]) == e {
            let w = choose|w: int|
                0 <= w < eps.len() - 1 && entry_chunk_of(m, #[trigger] eps[w]) == e;
            assert(eps.drop_last()[w] == eps[w]);
            lemma_dirty_targets_contains(m, eps.drop_last(), e);
            let k = choose|k: int| 0 <= k < pre.len() && pre[k] == e;
            assert(cur[k] == e);
            assert(cur.contains(e));
        } else {
            assert(cur == pre.push(e));
            assert(cur[cur.len() - 1] == e);
            assert(cur.contains(e));
        }
    } else {
        let w = choose|w: int| 0 <= w < eps.len() && entry_chunk_of(m, #[trigger] eps[w]) == e;
        assert(w < eps.len() - 1);
        assert(eps.drop_last()[w] == eps[w]);
        lemma_dirty_targets_contains(m, eps.drop_last(), e);
        let k = choose|k: int| 0 <= k < pre.len() && pre[k] == e;
        assert(cur[k] == e);
        assert(cur.contains(e));
    }
}

/// The membership tables across a whole relocation list: every listed entry
/// chunk is drained, the k-th fresh chunk holds exactly the k-th listed
/// chunk's former modules, and unlisted chunks are untouched.
pub proof fn lemma_apply_relocations_tables(m: CompilationModel, ds: Seq<usize>)
    requires
        wf(m),
        m.chunks.len() + ds.len() <= usize::MAX,
        distinct(ds),
        forall|k: int| 0 <= k < ds.len() ==> (#[trigger] ds[k]) < m.chunks.len(),
    ensures
        ({
            let r = apply_relocations(m, ds);
            &&& forall|c: int|
                0 <= c < m.chunks.len() && !ds.contains(c as usize) ==> r.chunk_modules[c]
                    == m.chunk_modules[c] && r.chunk_entry_modules[c] == m.chunk_entry_modules[c]
            &&& forall|k: int|
                0 <= k < ds.len() ==> r.chunk_modules[#[trigger] ds[k] as int]
                    == Seq::<usize>::empty()
            &&& forall|k: int|
                0 <= k < ds.len() ==> r.chunk_modules[m.chunks.len() + k]
                    == m.chunk_modules[#[trigger] ds[k] as int]
        }),
    decreases ds.len(),
{
    if ds.len() > 0 {
        let pre_ds = ds.drop_last();
        let e = ds.last();
        assert(distinct(pre_ds)) by {
            assert(forall|x: int| 0 <= x < pre_ds.len() ==> pre_ds[x] == ds[x]);
        }
        assert(forall|k: int| 0 <= k < pre_ds.len() ==> (#[trigger] pre_ds[k]) < m.chunks.len())
            by {
            assert(forall|x: int| 0 <= x < pre_ds.len() ==> pre_ds[x] == ds[x]);
        }
        lemma_apply_relocations_tables(m, pre_ds);
        let prev = apply_relocations(m, pre_ds);
        lemma_apply_relocations_len(m, pre_ds);
        lemma_apply_relocations_shape(m, pre_ds);
        assert(!pre_ds.contains(e)) by {
            if pre_ds.contains(e) {
                let w = choose|w: int| 0 <= w < pre_ds.len() && pre_ds[w] == e;
                assert(ds[w] == ds[ds.len() - 1]);
            }
        }
        assert(prev.chunk_modules[e as int] == m.chunk_modules[e as int]);
        assert(prev.chunk_entry_modules[e as int] == m.chunk_entry_modules[e as int]);
        assert(wf_chunk(m, e as int));
        lemma_relocate_facts(prev, e, owner_of(m, e));
        let r = apply_relocations(m, ds);
        assert(r == spec_relocate(prev, e, owner_of(m, e)));
        assert forall|c: int|
            0 <= c < m.chunks.len() && !ds.contains(c as usize) implies r.chunk_modules[c]
            == m.chunk_modules[c] && r.chunk_entry_modules[c] == m.chunk_entry_modules[c] by {
            assert(!pre_ds.contains(c as usize)) by {
                if pre_ds.contains(c as usize) {
                    let w = choose|w: int| 0 <= w < pre_ds.len() && pre_ds[w] == c as usize;
                    assert(ds[w] == c as usize);
                    assert(ds.contains(c as usize));
                }
            }
            assert(c != e as int) by {
                if c == e as int {
                    assert(ds[ds.len() - 1] == c as usize);
                    assert(ds.contains(c as usize));
                }
            }
        }
        assert forall|k: int| 0 <= k < ds.len() implies r.chunk_modules[#[trigger] ds[k] as int]
            == Seq::<usize>::empty() by {
            if k < ds.len() - 1 {
                assert(pre_ds[k] == ds[k]);
                assert(prev.chunk_modules[ds[k] as int] == Seq::<usize>::empty());
                assert(ds[k] != e);
                assert(ds[k] as int != prev.chunks.len());
            }
        }
        assert forall|k: int| 0 <= k < ds.len() implies r.chunk_modules[m.chunks.len() + k]
            == m.chunk_modules[#[trigger] ds[k] as int] by {
            if k < ds.len() - 1 {
                assert(pre_ds[k] == ds[k]);
                assert(prev.chunk_modules[m.chunks.len() + k] == m.chunk_modules[ds[k] as int]);
                assert(m.chunks.len() + k < prev.chunks.len());
                assert(m.chunks.len() + k != e as int);
            } else {
                assert(m.chunks.len() + k == prev.chunks.len());
            }
        }
    }
}

/// Containment closure: when a module of a non-entry chunk holds a live
/// reference into a module assigned to entry chunk `e`, and that reference
/// is the first of the referencing module's connections to reach any entry
/// chunk, then the pass relocates `e`: afterwards `e` holds no module at
/// all, and the referenced module lives in the chunk `e`'s contents were
/// relocated to.
pub proof fn lemma_containment_closure(
    m: CompilationModel,
    ch: usize,
    mi: int,
    j: int,
    t: usize,
    e: usize,
)
    requires
        wf(m),
        m.chunks.len() + dirty_targets(m).len() <= usize::MAX,
        ch < m.chunks.len(),
        !is_entry_chunk(m, ch),
        0 <= mi < m.chunk_modules[ch as int].len(),
        0 <= j < m.connections[m.chunk_modules[ch as int][mi] as int].len(),
        t == m.connections[m.chunk_modules[ch as int][mi] as int][j],
        belongs_to_entry_chunk(m, t, e),
        forall|j2: int|
            0 <= j2 < j ==> !hits_entry(
                m,
                #[trigger] m.connections[m.chunk_modules[ch as int][mi] as int][j2],
            ),
    ensures
        exists|k: int|
            0 <= k < dirty_targets(m).len() && dirty_targets(m)[k] == e && apply_relocations(
                m,
                dirty_targets(m),
            ).chunk_modules[e as int] == Seq::<usize>::empty() && apply_relocations(
                m,
                dirty_targets(m),
            ).chunk_modules[m.chunks.len() + k].contains(t),
{
    let module = m.chunk_modules[ch as int][mi];
    let targets = m.connections[module as int];
    assert(wf_chunk(m, ch as int));
    assert(module < m.connections.len());
    lemma_first_hit_index(m, targets);
    assert(first_hit_index(m, targets) == j) by {
        assert(hits_entry(m, targets[j]));
    }
    assert(module_marks(m, module, e));
    assert(spec_dirty(m, e)) by {
        assert(ch < m.chunks.len() && !is_entry_chunk(m, ch) && 0 <= mi < m.chunk_modules[ch as int].len()
            && module_marks(m, m.chunk_modules[ch as int][mi], e));
    }
    let we = choose|we: int|
        0 <= we < m.entrypoints.len() && entry_chunk_of(m, #[trigger] m.entrypoints[we]) == e;
    lemma_dirty_targets_contains(m, m.entrypoints, e);
    let ds = dirty_targets(m);
    let k = choose|k: int| 0 <= k < ds.len() && ds[k] == e;
    lemma_dirty_targets_props(m, m.entrypoints);
    lemma_apply_relocations_tables(m, ds);
    let r = apply_relocations(m, ds);
    assert(r.chunk_modules[e as int] == Seq::<usize>::empty());
    assert(r.chunk_modules[m.chunks.len() + k] == m.chunk_modules[e as int]);
    assert(m.chunk_modules[e as int].contains(t));
}

/// The set of chunks currently containing `module`.
pub open spec fn chunks_containing(m: CompilationModel, module: usize) -> Set<int> {
    Set::new(|c: int| 0 <= c < m.chunk_modules.len() && m.chunk_modules[c].contains(module))
}

/// The chunk set of any module is finite, with at most one entry per chunk.
pub proof fn lemma_chunks_containing_finite(m: CompilationModel, module: usize)
    ensures
        chunks_containing(m, module).finite(),
        chunks_containing(m, module).len() <= m.chunk_modules.len(),
{
    vstd::set_lib::lemma_int_range(0, m.chunk_modules.len() as int);
    vstd::set_lib::lemma_len_subset(
        chunks_containing(m, module),
        vstd::set_lib::set_int_range(0, m.chunk_modules.len() as int),
    );
}

/// Mass conservation, one relocation at a time: a module contained in the
/// drained entry chunk moves to the fresh chunk, every other containment is
/// untouched, and in particular the number of chunks containing any module
/// never changes.
pub proof fn lemma_relocate_membership(m: CompilationModel, e: usize, owner: usize, module: usize)
    requires
        m.chunks.len() < usize::MAX,
        m.chunk_modules.len() == m.chunks.len(),
        m.chunk_entry_modules.len() == m.chunks.len(),
        e < m.chunks.len(),
        distinct(m.chunk_modules[e as int]),
        distinct_keys(m.chunk_entry_modules[e as int]),
    ensures
        ({
            let r = spec_relocate(m, e, owner);
            let fresh = m.chunks.len() as int;
            &&& chunks_containing(r, module) == if m.chunk_modules[e as int].contains(module) {
                chunks_containing(m, module).remove(e as int).insert(fresh)
            } else {
                chunks_containing(m, module)
            }
            &&& chunks_containing(r, module).len() == chunks_containing(m, module).len()
        }),
{
    let r = spec_relocate(m, e, owner);
    let fresh = m.chunks.len() as int;
    lemma_relocate_facts(m, e, owner);
    lemma_relocate_shape(m, e, owner);
    lemma_chunks_containing_finite(m, module);
    if m.chunk_modules[e as int].contains(module) {
        assert(chunks_containing(r, module) =~= chunks_containing(m, module).remove(
            e as int,
        ).insert(fresh));
        assert(chunks_containing(m, module).contains(e as int));
        assert(!chunks_containing(m, module).remove(e as int).contains(fresh));
        vstd::set::axiom_set_remove_len(chunks_containing(m, module), e as int);
        vstd::set::axiom_set_insert_len(chunks_containing(m, module).remove(e as int), fresh);
    } else {
        assert(chunks_containing(r, module) =~= chunks_containing(m, module));
    }
}

/// Mass conservation over the whole containment pass: for every module, the
/// number of chunks containing it is unchanged — modules only move, they are
/// never duplicated or dropped. A module whose only chunk was a dirty entry
/// chunk ends up exactly in that chunk's relocation target.
pub proof fn lemma_mass_conservation(m: CompilationModel, module: usize)
    requires
        wf(m),
        m.chunks.len() + dirty_targets(m).len() <= usize::MAX,
    ensures
        chunks_containing(apply_relocations(m, dirty_targets(m)), module).len()
            == chunks_containing(m, module).len(),
{
    lemma_dirty_targets_props(m, m.entrypoints);
    lemma_mass_conservation_in(m, dirty_targets(m), module);
}

proof fn lemma_mass_conservation_in(m: CompilationModel, ds: Seq<usize>, module: usize)
    requires
        wf(m),
        m.chunks.len() + ds.len() <= usize::MAX,
        distinct(ds),
        forall|k: int| 0 <= k < ds.len() ==> (#[trigger] ds[k]) < m.chunks.len(),
    ensures
        chunks_containing(apply_relocations(m, ds), module).len() == chunks_containing(
            m,
            module,
        ).len(),
    decreases ds.len(),
{
    if ds.len() > 0 {
        let pre_ds = ds.drop_last();
        let e = ds.last();
        assert(distinct(pre_ds) && forall|k: int|
            0 <= k < pre_ds.len() ==> (#[trigger] pre_ds[k]) < m.chunks.len()) by {
            assert(forall|x: int| 0 <= x < pre_ds.len() ==> pre_ds[x] == ds[x]);
        }
        lemma_mass_conservation_in(m, pre_ds, module);
        let prev = apply_relocations(m, pre_ds);
        lemma_apply_relocations_len(m, pre_ds);
        lemma_apply_relocations_shape(m, pre_ds);
        lemma_apply_relocations_tables(m, pre_ds);
        assert(!pre_ds.contains(e)) by {
            if pre_ds.contains(e) {
                let w = choose|w: int| 0 <= w < pre_ds.len() && pre_ds[w] == e;
                assert(ds[w] == ds[ds.len() - 1]);
            }
        }
        assert(prev.chunk_modules[e as int] == m.chunk_modules[e as int]);
        assert(wf_chunk(m, e as int));
        lemma_relocate_membership(prev, e, owner_of(m, e), module);
    }
}

/// The formal reading of mass conservation for a relocated unit: a module
/// contained in the dirty entry chunk alone is afterwards contained in the
/// relocation target alone.
pub proof fn lemma_relocation_moves_unit(m: CompilationModel, e: usize, owner: usize, module: usize)
    requires
        m.chunks.len() < usize::MAX,
        m.chunk_modules.len() == m.chunks.len(),
        m.chunk_entry_modules.len() == m.chunks.len(),
        e < m.chunks.len(),
        distinct(m.chunk_modules[e as int]),
        distinct_keys(m.chunk_entry_modules[e as int]),
        chunks_containing(m, module) == set![e as int],
    ensures
        chunks_containing(spec_relocate(m, e, owner), module) == set![m.chunks.len() as int],
{
    lemma_relocate_membership(m, e, owner, module);
    assert(chunks_containing(m, module).contains(e as int));
    assert(m.chunk_modules[e as int].contains(module));
    assert(chunks_containing(m, module).remove(e as int).insert(m.chunks.len() as int)
        =~= set![m.chunks.len() as int]);
}

/// No entry chunk's module references a module assigned to a different
/// entry chunk.
pub open spec fn entry_modules_self_contained(m: CompilationModel) -> bool {
    forall|e: usize, i: int, j: int, e2: usize|
        #![trigger belongs_to_entry_chunk(
            m,
            m.connections[m.chunk_modules[e as int][i] as int][j],
            e2,
        ), is_entry_chunk(m, e)]
        (is_entry_chunk(m, e) && e < m.chunk_modules.len() && 0 <= i < m.chunk_modules[e as int].len()
            && 0 <= j < m.connections[m.chunk_modules[e as int][i] as int].len()
            && belongs_to_entry_chunk(
            m,
            m.connections[m.chunk_modules[e as int][i] as int][j],
            e2,
        )) ==> e2 == e
}

/// Stopping a module's scan at its first entry-belonging target loses no
/// mark: every entry chunk that any of the module's targets belongs to is
/// already marked through the first hit.
pub open spec fn first_hit_marks_all(m: CompilationModel) -> bool {
    forall|c: usize, i: int, j: int, e: usize|
        #![trigger belongs_to_entry_chunk(
            m,
            m.connections[m.chunk_modules[c as int][i] as int][j],
            e,
        ), is_entry_chunk(m, c)]
        (c < m.chunks.len() && !is_entry_chunk(m, c) && 0 <= i < m.chunk_modules[c as int].len()
            && 0 <= j < m.connections[m.chunk_modules[c as int][i] as int].len()
            && belongs_to_entry_chunk(
            m,
            m.connections[m.chunk_modules[c as int][i] as int][j],
            e,
        )) ==> module_marks(m, m.chunk_modules[c as int][i], e)
}

/// With no entry chunk dirty, the relocation order is empty.
proof fn lemma_dirty_targets_empty(m: CompilationModel, eps: Seq<usize>)
    requires
        forall|e: usize| !spec_dirty(m, e),
    ensures
        dirty_targets_in(m, eps).len() == 0,
    decreases eps.len(),
{
    if eps.len() > 0 {
        lemma_dirty_targets_empty(m, eps.drop_last());
    }
}

/// Idempotence of the containment pass: when entry chunks reference no other
/// entry chunk's modules, and the first entry-belonging target of each
/// module already marks every entry chunk its targets reach, a second run
/// of the pass finds no dirty entry chunk and performs zero relocations.
pub proof fn lemma_containment_idempotent(m: CompilationModel)
    requires
        wf(m),
        m.chunks.len() + dirty_targets(m).len() <= usize::MAX,
        entry_modules_self_contained(m),
        first_hit_marks_all(m),
    ensures
        ({
            let once = apply_relocations(m, dirty_targets(m));
            dirty_targets(once).len() == 0 && apply_relocations(once, dirty_targets(once)) == once
        }),
{
    let ds = dirty_targets(m);
    let once = apply_relocations(m, ds);
    lemma_dirty_targets_props(m, m.entrypoints);
    lemma_apply_relocations_tables(m, ds);
    lemma_apply_relocations_len(m, ds);
    lemma_apply_relocations_shape(m, ds);
    assert forall|x: usize| is_entry_chunk(once, x) <==> is_entry_chunk(m, x) by {
        if is_entry_chunk(once, x) {
            let w = choose|w: int|
                0 <= w < once.entrypoints.len() && entry_chunk_of(
                    once,
                    #[trigger] once.entrypoints[w],
                ) == x;
            assert(wf_entrypoint(m, m.entrypoints[w]));
            assert(entry_chunk_of(m, m.entrypoints[w]) == x);
        }
        if is_entry_chunk(m, x) {
            let w = choose|w: int|
                0 <= w < m.entrypoints.len() && entry_chunk_of(m, #[trigger] m.entrypoints[w])
                    == x;
            assert(wf_entrypoint(m, m.entrypoints[w]));
            assert(entry_chunk_of(once, once.entrypoints[w]) == x);
        }
    }
    assert forall|e: usize| !spec_dirty(once, e) by {
        if spec_dirty(once, e) {
            let (c, i) = choose|c: usize, i: int|
                c < once.chunks.len() && !is_entry_chunk(once, c) && 0 <= i < once.chunk_modules[c as int].len()
                    && module_marks(once, once.chunk_modules[c as int][i], e);
            let module = once.chunk_modules[c as int][i];
            let targets = once.connections[module as int];
            lemma_first_hit_index(once, targets);
            let jp = first_hit_index(once, targets);
            assert(jp < targets.len() && belongs_to_entry_chunk(once, targets[jp], e));
            let t_star = targets[jp];
            // translate the containment of `t_star` back to the pre-state
            assert(is_entry_chunk(m, e));
            let we = choose|we: int|
                0 <= we < m.entrypoints.len() && entry_chunk_of(m, #[trigger] m.entrypoints[we])
                    == e;
            assert(wf_entrypoint(m, m.entrypoints[we]));
            assert(e < m.chunks.len());
            assert(!ds.contains(e)) by {
                if ds.contains(e) {
                    let k = choose|k: int| 0 <= k < ds.len() && ds[k] == e;
                    assert(once.chunk_modules[e as int] == Seq::<usize>::empty());
                }
            }
            assert(once.chunk_modules[e as int] == m.chunk_modules[e as int]);
            assert(belongs_to_entry_chunk(m, t_star, e));
            if c < m.chunks.len() {
                assert(!is_entry_chunk(m, c));
                assert(!ds.contains(c)) by {
                    if ds.contains(c) {
                        let k = choose|k: int| 0 <= k < ds.len() && ds[k] == c;
                        assert(is_entry_chunk(m, ds[k]));
                    }
                }
                assert(once.chunk_modules[c as int] == m.chunk_modules[c as int]);
                assert(module == m.chunk_modules[c as int][i]);
                assert(belongs_to_entry_chunk(
                    m,
                    m.connections[m.chunk_modules[c as int][i] as int][jp],
                    e,
                ));
                assert(module_marks(m, module, e));
                assert(spec_dirty(m, e)) by {
                    assert(c < m.chunks.len() && !is_entry_chunk(m, c) && 0 <= i
                        < m.chunk_modules[c as int].len() && module_marks(
                        m,
                        m.chunk_modules[c as int][i],
                        e,
                    ));
                }
                lemma_dirty_targets_contains(m, m.entrypoints, e);
                assert(false);
            } else {
                let k = c as int - m.chunks.len() as int;
                assert(0 <= k < ds.len());
                let e1 = ds[k];
                assert(is_entry_chunk(m, e1) && e1 < m.chunks.len());
                assert(once.chunk_modules[c as int] == m.chunk_modules[e1 as int]);
                assert(module == m.chunk_modules[e1 as int][i]);
                assert(belongs_to_entry_chunk(
                    m,
                    m.connections[m.chunk_modules[e1 as int][i] as int][jp],
                    e,
                ));
                assert(e == e1);
                assert(ds.contains(e)) by {
                    assert(ds[k] == e);
                }
                assert(false);
            }
        }
    }
    lemma_dirty_targets_empty(once, once.entrypoints);
}

/// Filtering drops a sequence whose elements all fail the predicate.
pub proof fn lemma_filter_none(s: Seq<(usize, usize)>, pred: spec_fn((usize, usize)) -> bool)
    requires
        forall|x: int| 0 <= x < s.len() ==> !pred(#[trigger] s[x]),
    ensures
        s.filter(pred) == Seq::<(usize, usize)>::empty(),
    decreases s.len(),
{
    reveal(Seq::filter);
    if s.len() > 0 {
        assert(forall|x: int| 0 <= x < s.drop_last().len() ==> s.drop_last()[x] == s[x]);
        lemma_filter_none(s.drop_last(), pred);
    }
}

/// Inserting a fresh element keeps a sequence duplicate-free, and keeps all
/// old elements.
pub proof fn lemma_insert_distinct(s: Seq<usize>, k: int, v: usize)
    requires
        distinct(s),
        !s.contains(v),
        0 <= k <= s.len(),
    ensures
        distinct(s.insert(k, v)),
        s.insert(k, v).contains(v),
        forall|x: usize| s.contains(x) ==> s.insert(k, v).contains(x),
{
    let t = s.insert(k, v);
    assert(t[k] == v);
    assert(t.contains(v));
    assert forall|i: int, j: int| 0 <= i < j < t.len() implies t[i] != t[j] by {
        if i != k && j != k {
            let i0 = if i < k { i } else { i - 1 };
            let j0 = if j < k { j } else { j - 1 };
            assert(t[i] == s[i0] && t[j] == s[j0]);
        } else if i == k {
            let j0 = j - 1;
            assert(t[j] == s[j0]);
            if t[j] == v {
                assert(s.contains(v));
            }
        } else {
            let i0 = i;
            assert(t[i] == s[i0]);
            if t[i] == v {
                assert(s.contains(v));
            }
        }
    }
    assert forall|x: usize| s.contains(x) implies t.contains(x) by {
        let w = choose|w: int| 0 <= w < s.len() && s[w] == x;
        if w < k {
            assert(t[w] == x);
        } else {
            assert(t[w + 1] == x);
        }
    }
}

/// What the split does to the group registry, one group list at a time:
/// each listed group's ordering gains the new chunk right after the source
/// (at the end when the source is absent), the new chunk's group list gains
/// the listed groups, and nothing else changes.
pub proof fn lemma_split_iter_facts(
    m: CompilationModel,
    source: usize,
    new_chunk: usize,
    gs: Seq<usize>,
)
    requires
        source < m.chunks.len(),
        new_chunk < m.chunks.len(),
        source != new_chunk,
        m.chunk_groups.len() <= usize::MAX,
        distinct(gs),
        forall|x: int| 0 <= x < gs.len() ==> (#[trigger] gs[x]) < m.chunk_groups.len(),
    ensures
        ({
            let r = spec_split_iter(m, source, new_chunk, gs);
            &&& forall|g: int|
                0 <= g < m.chunk_groups.len() && !gs.contains(g as usize)
                    ==> #[trigger] r.chunk_groups[g] == m.chunk_groups[g]
            &&& forall|g: int|
                0 <= g < m.chunk_groups.len() && gs.contains(g as usize)
                    ==> #[trigger] r.chunk_groups[g].chunks == ({
                    let members = m.chunk_groups[g].chunks;
                    let i = first_index(members, source);
                    if i < members.len() {
                        members.insert(i + 1, new_chunk)
                    } else {
                        members.push(new_chunk)
                    }
                })
            &&& r.chunks[new_chunk as int].groups == m.chunks[new_chunk as int].groups + gs
        }),
    decreases gs.len(),
{
    let r = spec_split_iter(m, source, new_chunk, gs);
    if gs.len() == 0 {
        assert(m.chunks[new_chunk as int].groups + gs =~= m.chunks[new_chunk as int].groups);
    } else {
        let pre_gs = gs.drop_last();
        let g = gs.last();
        assert(distinct(pre_gs) && forall|x: int|
            0 <= x < pre_gs.len() ==> (#[trigger] pre_gs[x]) < m.chunk_groups.len()) by {
            assert(forall|x: int| 0 <= x < pre_gs.len() ==> pre_gs[x] == gs[x]);
        }
        lemma_split_iter_facts(m, source, new_chunk, pre_gs);
        lemma_split_iter_shape(m, source, new_chunk, pre_gs);
        let prev = spec_split_iter(m, source, new_chunk, pre_gs);
        assert(!pre_gs.contains(g)) by {
            if pre_gs.contains(g) {
                let w = choose|w: int| 0 <= w < pre_gs.len() && pre_gs[w] == g;
                assert(gs[w] == gs[gs.len() - 1]);
            }
        }
        assert(prev.chunk_groups[g as int] == m.chunk_groups[g as int]);
        assert(r == spec_register_in_group(prev, g, source, new_chunk));
        assert(r.chunks[new_chunk as int].groups =~= m.chunks[new_chunk as int].groups + gs) by {
            assert(prev.chunks[new_chunk as int].groups == m.chunks[new_chunk as int].groups
                + pre_gs);
            assert(r.chunks[new_chunk as int].groups == prev.chunks[new_chunk as int].groups.push(
                g,
            ));
        }
        assert forall|g2: int|
            0 <= g2 < m.chunk_groups.len() && !gs.contains(g2 as usize) implies #[trigger] r.chunk_groups[g2]
            == m.chunk_groups[g2] by {
            assert(!pre_gs.contains(g2 as usize)) by {
                if pre_gs.contains(g2 as usize) {
                    let w = choose|w: int| 0 <= w < pre_gs.len() && pre_gs[w] == g2 as usize;
                    assert(gs[w] == g2 as usize);
                    assert(gs.contains(g2 as usize));
                }
            }
            assert(g2 != g as int) by {
                if g2 == g as int {
                    assert(gs[gs.len() - 1] == g2 as usize);
                    assert(gs.contains(g2 as usize));
                }
            }
        }
        assert forall|g2: int|
            0 <= g2 < m.chunk_groups.len() && gs.contains(g2 as usize) implies #[trigger] r.chunk_groups[g2].chunks
            == ({
            let members = m.chunk_groups[g2].chunks;
            let i = first_index(members, source);
            if i < members.len() {
                members.insert(i + 1, new_chunk)
            } else {
                members.push(new_chunk)
            }
        }) by {
            if g2 == g as int {
            } else {
                let w = choose|w: int| 0 <= w < gs.len() && gs[w] == g2 as usize;
                if w == gs.len() - 1 {
                    assert(gs[w] == g);
                    assert(g2 == g as int);
                }
                assert(w < gs.len() - 1);
                assert(pre_gs[w] == g2 as usize);
                assert(pre_gs.contains(g2 as usize));
                assert(r.chunk_groups[g2] == prev.chunk_groups[g2]);
            }
        }
    }
}

/// One relocation preserves well-formedness of the whole compilation state.
pub proof fn lemma_relocate_wf(m: CompilationModel, e: usize, owner: usize)
    requires
        wf(m),
        m.chunks.len() < usize::MAX,
        m.chunk_groups.len() <= usize::MAX,
        e < m.chunks.len(),
        owner < m.chunk_groups.len(),
        m.chunk_groups[owner as int].kind is Entrypoint,
    ensures
        wf(spec_relocate(m, e, owner)),
{
    let r = spec_relocate(m, e, owner);
    let fresh = m.chunks.len() as usize;
    let n = m.chunks.len() as int;
    let mods = m.chunk_modules[e as int];
    assert(wf_chunk(m, e as int));
    lemma_relocate_facts(m, e, owner);
    lemma_relocate_shape(m, e, owner);
    let m1 = spec_add_chunk(m);
    let m2 = spec_record_chunk_add(m1, fresh);
    let m3 = spec_graph_add_chunk(m2);
    let m4 = if runtime_chunk_of(m3, owner) == e {
        spec_set_runtime_chunk(m3, owner, fresh)
    } else {
        m3
    };
    let m5 = spec_move_modules(m4, e, fresh, owner, mods);
    lemma_move_modules_shape(m4, e, fresh, owner, mods);
    let gs = m5.chunks[e as int].groups;
    assert(m5.chunks == m.chunks.push(empty_chunk()));
    assert(gs == m.chunks[e as int].groups);
    assert(distinct(gs));
    assert(forall|x: int| 0 <= x < gs.len() ==> (#[trigger] gs[x]) < m5.chunk_groups.len());
    assert(m5.chunk_groups.len() == m.chunk_groups.len());
    lemma_split_iter_facts(m5, e, fresh, gs);
    lemma_split_iter_shape(m5, e, fresh, gs);
    assert(r == spec_split_iter(m5, e, fresh, gs));
    // the group kinds and initial flags of m5 match m, except the owner's
    // runtime designation
    assert(forall|g: int|
        0 <= g < m.chunk_groups.len() ==> (#[trigger] m5.chunk_groups[g]).chunks
            == m.chunk_groups[g].chunks);
    // the drained chunk keeps no entry record
    assert(r.chunk_entry_modules[e as int] =~= Seq::<(usize, usize)>::empty()) by {
        assert forall|x: int|
            0 <= x < m.chunk_entry_modules[e as int].len() implies !(!mods.contains(
            (#[trigger] m.chunk_entry_modules[e as int][x]).0,
        )) by {}
        lemma_filter_none(
            m.chunk_entry_modules[e as int],
            |p: (usize, usize)| !mods.contains(p.0),
        );
    }
    // every member of an updated group ordering is the fresh chunk or an
    // old member
    assert forall|g: int| 0 <= g < r.chunk_groups.len() implies wf_group(r, g) by {
        assert(wf_group(m, g));
        let old_members = m.chunk_groups[g].chunks;
        assert(forall|x: int| 0 <= x < old_members.len() ==> (#[trigger] old_members[x]) < n);
        assert(!old_members.contains(fresh)) by {
            if old_members.contains(fresh) {
                let w = choose|w: int| 0 <= w < old_members.len() && old_members[w] == fresh;
            }
        }
        if gs.contains(g as usize) {
            let i = first_index(old_members, e);
            lemma_first_index(old_members, e);
            let updated = r.chunk_groups[g].chunks;
            if i < old_members.len() {
                assert(updated == old_members.insert(i + 1, fresh));
                lemma_insert_distinct(old_members, i + 1, fresh);
                assert(distinct(updated));
                assert forall|x: int|
                    0 <= x < updated.len() implies (#[trigger] updated[x]) < r.chunks.len()
                    && r.chunks[updated[x] as int].groups.contains(g as usize) by {
                    if x == i + 1 {
                        assert(updated[x] == fresh);
                        assert(r.chunks[fresh as int].groups =~= gs) by {
                            assert(m5.chunks[fresh as int].groups == Seq::<usize>::empty());
                        }
                    } else {
                        let x0 = if x < i + 1 {
                            x
                        } else {
                            x - 1
                        };
                        assert(updated[x] == old_members[x0]);
                        assert(old_members[x0] < n);
                        assert(m.chunks[old_members[x0] as int].groups.contains(g as usize));
                        assert(r.chunks[old_members[x0] as int] == m.chunks[
                            old_members[x0] as int
                        ]);
                    }
                }
            } else {
                assert(updated == old_members.push(fresh));
                assert forall|x: int, y: int| 0 <= x < y < updated.len() implies updated[x]
                    != updated[y] by {
                    if y == updated.len() - 1 {
                        assert(updated[x] == old_members[x]);
                        assert(old_members[x] < n);
                    }
                }
                assert forall|x: int|
                    0 <= x < updated.len() implies (#[trigger] updated[x]) < r.chunks.len()
                    && r.chunks[updated[x] as int].groups.contains(g as usize) by {
                    if x == updated.len() - 1 {
                        assert(updated[x] == fresh);
                        assert(r.chunks[fresh as int].groups =~= gs) by {
                            assert(m5.chunks[fresh as int].groups == Seq::<usize>::empty());
                        }
                    } else {
                        assert(updated[x] == old_members[x]);
                        assert(old_members[x] < n);
                        assert(m.chunks[old_members[x] as int].groups.contains(g as usize));
                        assert(r.chunks[old_members[x] as int] == m.chunks[old_members[x] as int]);
                    }
                }
            }
        } else {
            assert(r.chunk_groups[g] == m5.chunk_groups[g]);
            assert(r.chunk_groups[g].chunks == old_members);
            assert forall|x: int|
                0 <= x < old_members.len() implies (#[trigger] old_members[x]) < r.chunks.len()
                && r.chunks[old_members[x] as int].groups.contains(g as usize) by {
                assert(old_members[x] < n);
                assert(r.chunks[old_members[x] as int] == m.chunks[old_members[x] as int]);
            }
        }
    }
    assert forall|c: int| 0 <= c < r.chunks.len() implies wf_chunk(r, c) by {
        if c < n {
            assert(wf_chunk(m, c));
            assert(r.chunks[c] == m.chunks[c]);
            if c == e as int {
                assert(r.chunk_modules[c] == Seq::<usize>::empty());
            } else {
                assert(r.chunk_modules[c] == m.chunk_modules[c]);
                assert(r.chunk_entry_modules[c] == m.chunk_entry_modules[c]);
            }
            assert forall|x: int|
                0 <= x < r.chunks[c].groups.len() implies (#[trigger] r.chunks[c].groups[x])
                < r.chunk_groups.len() && r.chunk_groups[r.chunks[c].groups[x] as int].chunks.contains(
                c as usize,
            ) by {
                let g = m.chunks[c].groups[x];
                assert(g < m.chunk_groups.len());
                assert(wf_group(m, g as int));
                assert(m.chunk_groups[g as int].chunks.contains(c as usize));
                let old_members = m.chunk_groups[g as int].chunks;
                if gs.contains(g) {
                    let i = first_index(old_members, e);
                    lemma_first_index(old_members, e);
                    let w = choose|w: int|
                        0 <= w < old_members.len() && old_members[w] == c as usize;
                    if i < old_members.len() {
                        let updated = old_members.insert(i + 1, fresh);
                        assert(r.chunk_groups[g as int].chunks == updated);
                        if w < i + 1 {
                            assert(updated[w] == c as usize);
                        } else {
                            assert(updated[w + 1] == c as usize);
                        }
                        assert(updated.contains(c as usize));
                    } else {
                        let updated = old_members.push(fresh);
                        assert(r.chunk_groups[g as int].chunks == updated);
                        assert(updated[w] == c as usize);
                        assert(updated.contains(c as usize));
                    }
                } else {
                    assert(r.chunk_groups[g as int] == m5.chunk_groups[g as int]);
                }
            }
        } else {
            // the fresh chunk
            assert(c == n);
            assert(r.chunk_modules[c] == mods);
            assert(r.chunk_entry_modules[c] == mods.map_values(|mo: usize| (mo, owner)));
            let entries = r.chunk_entry_modules[c];
            assert(entries.len() == mods.len());
            assert(forall|x: int| 0 <= x < mods.len() ==> (#[trigger] entries[x]) == (
            mods[x],
            owner,
            ));
            assert forall|x: int, y: int| 0 <= x < y < entries.len() implies entries[x].0
                != entries[y].0 by {}
            assert forall|x: int|
                0 <= x < entries.len() implies r.chunk_modules[c].contains(
                (#[trigger] entries[x]).0,
            ) && entries[x].1 < r.chunk_groups.len() by {
                assert(entries[x].0 == mods[x]);
                assert(r.chunk_modules[c][x] == mods[x]);
            }
            assert(r.chunks[c].groups =~= gs) by {
                assert(m5.chunks[fresh as int].groups == Seq::<usize>::empty());
            }
            assert forall|x: int|
                0 <= x < r.chunks[c].groups.len() implies (#[trigger] r.chunks[c].groups[x])
                < r.chunk_groups.len() && r.chunk_groups[r.chunks[c].groups[x] as int].chunks.contains(
                c as usize,
            ) by {
                let g = gs[x];
                assert(r.chunks[c].groups[x] == g);
                assert(gs.contains(g));
                assert(wf_group(m, g as int));
                let old_members = m.chunk_groups[g as int].chunks;
                let i = first_index(old_members, e);
                lemma_first_index(old_members, e);
                if i < old_members.len() {
                    let updated = old_members.insert(i + 1, fresh);
                    assert(r.chunk_groups[g as int].chunks == updated);
                    assert(updated[i + 1] == fresh);
                    assert(updated.contains(fresh));
                } else {
                    let updated = old_members.push(fresh);
                    assert(r.chunk_groups[g as int].chunks == updated);
                    assert(updated[updated.len() - 1] == fresh);
                    assert(updated.contains(fresh));
                }
            }
        }
    }
    assert forall|i: int| 0 <= i < r.entrypoints.len() implies wf_entrypoint(
        r,
        #[trigger] r.entrypoints[i],
    ) by {
        let g = m.entrypoints[i];
        assert(wf_entrypoint(m, g));
        assert(r.chunk_groups[g as int].kind == m5.chunk_groups[g as int].kind);
        if g == owner && runtime_chunk_of(m3, owner) == e {
            assert(runtime_chunk_of(r, g) == fresh);
        } else {
            assert(m5.chunk_groups[g as int].kind == m.chunk_groups[g as int].kind);
            assert(runtime_chunk_of(r, g) == runtime_chunk_of(m, g));
        }
    }
}

/// Well-formedness survives the whole relocation fold.
pub proof fn lemma_apply_relocations_wf(m: CompilationModel, ds: Seq<usize>)
    requires
        wf(m),
        m.chunks.len() + ds.len() <= usize::MAX,
        m.chunk_groups.len() <= usize::MAX,
        distinct(ds),
        forall|k: int|
            0 <= k < ds.len() ==> (#[trigger] ds[k]) < m.chunks.len() && is_entry_chunk(m, ds[k]),
    ensures
        wf(apply_relocations(m, ds)),
    decreases ds.len(),
{
    if ds.len() > 0 {
        let pre_ds = ds.drop_last();
        let e = ds.last();
        assert(distinct(pre_ds) && forall|k: int|
            0 <= k < pre_ds.len() ==> (#[trigger] pre_ds[k]) < m.chunks.len() && is_entry_chunk(
                m,
                pre_ds[k],
            )) by {
            assert(forall|x: int| 0 <= x < pre_ds.len() ==> pre_ds[x] == ds[x]);
        }
        lemma_apply_relocations_wf(m, pre_ds);
        let prev = apply_relocations(m, pre_ds);
        lemma_apply_relocations_len(m, pre_ds);
        lemma_apply_relocations_shape(m, pre_ds);
        assert(is_entry_chunk(m, e)) by {
            assert(ds[ds.len() - 1] == e);
        }
        let we = choose|we: int|
            0 <= we < m.entrypoints.len() && entry_chunk_of(m, #[trigger] m.entrypoints[we]) == e;
        assert(exists|w: int|
            0 <= w < m.entrypoints.len() && entry_chunk_of(m, #[trigger] m.entrypoints[w]) == e);
        lemma_owner_in(m, m.entrypoints, e);
        let og = owner_of(m, e);
        let w = choose|w: int| 0 <= w < m.entrypoints.len() && m.entrypoints[w] == og;
        assert(wf_entrypoint(m, og));
        assert(prev.chunk_groups[og as int].kind is Entrypoint);
        lemma_relocate_wf(prev, e, og);
    }
}

/// One runtime split preserves well-formedness of the whole compilation
/// state.
pub proof fn lemma_split_runtime_wf(m: CompilationModel, g: usize)
    requires
        wf(m),
        m.chunks.len() < usize::MAX,
        wf_entrypoint(m, g),
    ensures
        wf(spec_split_runtime(m, g)),
{
    let r = spec_split_runtime(m, g);
    let entry = entry_chunk_of(m, g);
    let fresh = m.chunks.len() as usize;
    let n = m.chunks.len() as int;
    lemma_split_runtime_shape(m, g);
    assert(wf_group(m, g as int));
    let old_members = m.chunk_groups[g as int].chunks;
    assert(!old_members.contains(fresh)) by {
        if old_members.contains(fresh) {
            let w = choose|w: int| 0 <= w < old_members.len() && old_members[w] == fresh;
        }
    }
    let updated = old_members.insert(0, fresh);
    assert(r.chunk_groups[g as int].chunks == updated);
    assert(r.chunks[fresh as int].groups =~= seq![g]);
    assert(r.chunk_modules[fresh as int] == Seq::<usize>::empty());
    assert(r.chunk_entry_modules[fresh as int] == Seq::<(usize, usize)>::empty());
    lemma_insert_distinct(old_members, 0, fresh);
    assert forall|c: int| 0 <= c < r.chunks.len() implies wf_chunk(r, c) by {
        if c < n {
            assert(wf_chunk(m, c));
            assert(r.chunks[c] == m.chunks[c]);
            assert(r.chunk_modules[c] == m.chunk_modules[c]);
            assert(r.chunk_entry_modules[c] == m.chunk_entry_modules[c]);
            assert forall|x: int|
                0 <= x < r.chunks[c].groups.len() implies (#[trigger] r.chunks[c].groups[x])
                < r.chunk_groups.len() && r.chunk_groups[r.chunks[c].groups[x] as int].chunks.contains(
                c as usize,
            ) by {
                let g2 = m.chunks[c].groups[x];
                assert(m.chunk_groups[g2 as int].chunks.contains(c as usize));
                if g2 == g {
                    let w = choose|w: int|
                        0 <= w < old_members.len() && old_members[w] == c as usize;
                    assert(updated[w + 1] == c as usize);
                    assert(updated.contains(c as usize));
                } else {
                    assert(r.chunk_groups[g2 as int].chunks == m.chunk_groups[g2 as int].chunks);
                }
            }
        } else {
            assert(c == n);
            assert forall|x: int|
                0 <= x < r.chunks[c].groups.len() implies (#[trigger] r.chunks[c].groups[x])
                < r.chunk_groups.len() && r.chunk_groups[r.chunks[c].groups[x] as int].chunks.contains(
                c as usize,
            ) by {
                assert(r.chunks[c].groups[x] == g);
                assert(updated[0] == fresh);
                assert(updated.contains(fresh));
            }
        }
    }
    assert forall|g2: int| 0 <= g2 < r.chunk_groups.len() implies wf_group(r, g2) by {
        assert(wf_group(m, g2));
        if g2 == g as int {
            assert forall|x: int|
                0 <= x < updated.len() implies (#[trigger] updated[x]) < r.chunks.len()
                && r.chunks[updated[x] as int].groups.contains(g2 as usize) by {
                if x == 0 {
                    assert(updated[x] == fresh);
                    assert(r.chunks[fresh as int].groups[0] == g);
                    assert(r.chunks[fresh as int].groups.contains(g));
                } else {
                    assert(updated[x] == old_members[x - 1]);
                    assert(old_members[x - 1] < n);
                    assert(m.chunks[old_members[x - 1] as int].groups.contains(g2 as usize));
                    assert(r.chunks[old_members[x - 1] as int] == m.chunks[
                        old_members[x - 1] as int
                    ]);
                }
            }
        } else {
            assert(r.chunk_groups[g2].chunks == m.chunk_groups[g2].chunks);
            assert forall|x: int|
                0 <= x < r.chunk_groups[g2].chunks.len() implies (
            #[trigger] r.chunk_groups[g2].chunks[x]) < r.chunks.len() && r.chunks[
                r.chunk_groups[g2].chunks[x] as int
            ].groups.contains(g2 as usize) by {
                let c = m.chunk_groups[g2].chunks[x];
                assert(c < n);
                assert(m.chunks[c as int].groups.contains(g2 as usize));
                assert(r.chunks[c as int] == m.chunks[c as int]);
            }
        }
    }
    assert forall|i: int| 0 <= i < r.entrypoints.len() implies wf_entrypoint(
        r,
        #[trigger] r.entrypoints[i],
    ) by {
        let g2 = m.entrypoints[i];
        assert(wf_entrypoint(m, g2));
        if g2 == g {
            assert(runtime_chunk_of(r, g2) == fresh);
        } else {
            assert(r.chunk_groups[g2 as int].kind == m.chunk_groups[g2 as int].kind);
        }
    }
}

/// Well-formedness survives the whole runtime-split fold.
pub proof fn lemma_apply_runtime_splits_wf(m: CompilationModel, sel: Seq<usize>)
    requires
        wf(m),
        m.chunks.len() + sel.len() <= usize::MAX,
        forall|k: int| 0 <= k < sel.len() ==> m.entrypoints.contains(#[trigger] sel[k]),
    ensures
        wf(apply_runtime_splits(m, sel)),
    decreases sel.len(),
{
    if sel.len() > 0 {
        let pre = sel.drop_last();
        let g = sel.last();
        assert(forall|k: int| 0 <= k < pre.len() ==> m.entrypoints.contains(#[trigger] pre[k]))
            by {
            assert(forall|x: int| 0 <= x < pre.len() ==> pre[x] == sel[x]);
        }
        lemma_apply_runtime_splits_wf(m, pre);
        let prev = apply_runtime_splits(m, pre);
        lemma_apply_runtime_splits_len(m, pre);
        lemma_apply_runtime_splits_shape(m, pre);
        assert(m.entrypoints.contains(g)) by {
            assert(sel[sel.len() - 1] == g);
        }
        assert(wf_entrypoint(prev, g)) by {
            let w = choose|w: int| 0 <= w < m.entrypoints.len() && m.entrypoints[w] == g;
            assert(prev.entrypoints[w] == g);
            assert(wf_entrypoint(prev, prev.entrypoints[w]));
        }
        lemma_split_runtime_wf(prev, g);
    }
}

} // verus!
