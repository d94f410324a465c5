//! The chunk / chunk-group / module registries and the structural edit
//! operations on them.
//!
//! Every entity is addressed by a stable key: an index into the registry
//! vector that owns it. All relations between entities are explicit adjacency
//! lists over those keys, never direct structural references, so relocating a
//! module is a pure key-remapping operation.

use vstd::prelude::*;

verus! {

/// One structural edit of the chunk graph, recorded for an incremental
/// rebuild scheduler when tracking is enabled.
#[derive(Debug, Clone, Copy, PartialEq, Eq, Structural)]
pub enum Mutation {
    ChunkAdd { chunk: usize },
}

/// An output bundling unit: eventually one emitted file fragment.
#[derive(Debug, Clone)]
pub struct Chunk {
    /// Runtime-applicability spec: the runtime names this chunk is valid
    /// under.
    pub runtime: Vec<u64>,
    /// Name hints consulted when chunk ids are assigned later.
    pub id_name_hints: Vec<String>,
    /// Marks the chunk ineligible for later merge or deduplication passes.
    pub prevent_integration: bool,
    /// Keys of the chunk groups this chunk belongs to.
    pub groups: Vec<usize>,
}

/// Distinguishes a program-entry group from an async split-point group.
#[derive(Debug, Clone, Copy, PartialEq, Eq, Structural)]
pub enum ChunkGroupKind {
    /// A group marked as a program entry, with its principal entry chunk and
    /// its designated runtime chunk.
    Entrypoint { entry_chunk: usize, runtime_chunk: usize },
    /// An ordinary group created for an async split point.
    Normal,
}

/// An ordered collection of chunks loaded together for one entry point or one
/// async split point.
#[derive(Debug, Clone)]
pub struct ChunkGroup {
    /// The member chunks, in load order.
    pub chunks: Vec<usize>,
    /// Whether the group is part of a page's initial load rather than a
    /// lazily loaded async group.
    pub is_initial: bool,
    pub kind: ChunkGroupKind,
}

/// The bipartite chunk/module relation: which modules live in which chunk,
/// and which modules are the entry modules of a chunk under a given entry
/// point.
#[derive(Debug)]
pub struct ChunkGraph {
    /// Per chunk key: the modules the chunk contains.
    pub chunk_modules: Vec<Vec<usize>>,
    /// Per chunk key: pairs of an entry module and the entry-point group it
    /// is an entry module for.
    pub chunk_entry_modules: Vec<Vec<(usize, usize)>>,
}

/// The directed reference graph among modules, already pruned of dead
/// references by export-usage analysis. Read-only to the optimizer.
#[derive(Debug)]
pub struct ModuleGraph {
    /// Per module id: the targets of the module's active outgoing
    /// connections.
    pub connections: Vec<Vec<usize>>,
}

/// The compilation state the optimizer passes read and mutate: all
/// registries, plus the optional incremental mutation log.
#[derive(Debug)]
pub struct Compilation {
    pub chunks: Vec<Chunk>,
    pub chunk_groups: Vec<ChunkGroup>,
    /// Keys of the entry-point groups, in their configured order.
    pub entrypoints: Vec<usize>,
    pub chunk_graph: ChunkGraph,
    pub module_graph: ModuleGraph,
    /// The incremental mutation log; `None` when tracking is disabled.
    pub mutations: Option<Vec<Mutation>>,
}

/// Mathematical model of a [`Chunk`].
#[verifier::ext_equal]
pub struct ChunkModel {
    pub runtime: Seq<u64>,
    pub id_name_hints: Seq<Seq<char>>,
    pub prevent_integration: bool,
    pub groups: Seq<usize>,
}

/// Mathematical model of a [`ChunkGroup`].
#[verifier::ext_equal]
pub struct ChunkGroupModel {
    pub chunks: Seq<usize>,
    pub is_initial: bool,
    pub kind: ChunkGroupKind,
}

/// Mathematical model of a whole [`Compilation`], with the two graph
/// relations flattened in.
#[verifier::ext_equal]
pub struct CompilationModel {
    pub chunks: Seq<ChunkModel>,
    pub chunk_groups: Seq<ChunkGroupModel>,
    pub entrypoints: Seq<usize>,
    pub chunk_modules: Seq<Seq<usize>>,
    pub chunk_entry_modules: Seq<Seq<(usize, usize)>>,
    pub connections: Seq<Seq<usize>>,
    pub mutations: Option<Seq<Mutation>>,
}

impl View for Chunk {
    type V = ChunkModel;

    open spec fn view(&self) -> ChunkModel {
        ChunkModel {
            runtime: self.runtime@,
            id_name_hints: Seq::new(self.id_name_hints@.len(), |i: int| self.id_name_hints@[i]@),
            prevent_integration: self.prevent_integration,
            groups: self.groups@,
        }
    }
}

impl View for ChunkGroup {
    type V = ChunkGroupModel;

    open spec fn view(&self) -> ChunkGroupModel {
        ChunkGroupModel { chunks: self.chunks@, is_initial: self.is_initial, kind: self.kind }
    }
}

/// Mathematical model of a [`ChunkGraph`].
#[verifier::ext_equal]
pub struct ChunkGraphModel {
    pub chunk_modules: Seq<Seq<usize>>,
    pub chunk_entry_modules: Seq<Seq<(usize, usize)>>,
}

impl View for ChunkGraph {
    type V = ChunkGraphModel;

    open spec fn view(&self) -> ChunkGraphModel {
        ChunkGraphModel {
            chunk_modules: Seq::new(self.chunk_modules@.len(), |i: int| self.chunk_modules@[i]@),
            chunk_entry_modules: Seq::new(
                self.chunk_entry_modules@.len(),
                |i: int| self.chunk_entry_modules@[i]@,
            ),
        }
    }
}

impl View for ModuleGraph {
    type V = Seq<Seq<usize>>;

    open spec fn view(&self) -> Seq<Seq<usize>> {
        Seq::new(self.connections@.len(), |i: int| self.connections@[i]@)
    }
}

impl View for Compilation {
    type V = CompilationModel;

    open spec fn view(&self) -> CompilationModel {
        CompilationModel {
            chunks: Seq::new(self.chunks@.len(), |i: int| self.chunks@[i]@),
            chunk_groups: Seq::new(self.chunk_groups@.len(), |i: int| self.chunk_groups@[i]@),
            entrypoints: self.entrypoints@,
            chunk_modules: self.chunk_graph@.chunk_modules,
            chunk_entry_modules: self.chunk_graph@.chunk_entry_modules,
            connections: self.module_graph@,
            mutations: match self.mutations {
                Some(log) => Some(log@),
                None => None,
            },
        }
    }
}

/// A sequence with pairwise distinct elements.
pub open spec fn distinct<A>(s: Seq<A>) -> bool {
    forall|i: int, j: int| 0 <= i < j < s.len() ==> s[i] != s[j]
}

/// The model of a freshly allocated chunk.
pub open spec fn empty_chunk() -> ChunkModel {
    ChunkModel {
        runtime: Seq::empty(),
        id_name_hints: Seq::empty(),
        prevent_integration: false,
        groups: Seq::empty(),
    }
}

/// The smallest index of `x` in `s`, or `s.len()` when `x` does not occur.
pub open spec fn first_index(s: Seq<usize>, x: usize) -> int
    decreases s.len(),
{
    if s.len() == 0 {
        0
    } else if s[0] == x {
        0
    } else {
        1 + first_index(s.drop_first(), x)
    }
}

/// The smallest index of a pair with key `key` in `s`, or `s.len()` when no
/// pair has that key.
pub open spec fn first_key_index(s: Seq<(usize, usize)>, key: usize) -> int
    decreases s.len(),
{
    if s.len() == 0 {
        0
    } else if s[0].0 == key {
        0
    } else {
        1 + first_key_index(s.drop_first(), key)
    }
}

pub proof fn lemma_first_index(s: Seq<usize>, x: usize)
    ensures
        0 <= first_index(s, x) <= s.len(),
        first_index(s, x) < s.len() ==> s[first_index(s, x)] == x,
        forall|j: int| 0 <= j < first_index(s, x) ==> s[j] != x,
        first_index(s, x) == s.len() ==> !s.contains(x),
    decreases s.len(),
{
    if s.len() > 0 && s[0] != x {
        lemma_first_index(s.drop_first(), x);
        assert forall|j: int| 0 <= j < first_index(s, x) implies s[j] != x by {
            if j > 0 {
                assert(s.drop_first()[j - 1] != x);
            }
        }
        if first_index(s, x) == s.len() && s.contains(x) {
            let w = choose|w: int| 0 <= w < s.len() && s[w] == x;
            assert(s[w] != x);
        }
    }
    if s.len() > 0 && s[0] == x {
        assert(s.contains(x));
    }
}

pub proof fn lemma_first_key_index(s: Seq<(usize, usize)>, key: usize)
    ensures
        0 <= first_key_index(s, key) <= s.len(),
        first_key_index(s, key) < s.len() ==> s[first_key_index(s, key)].0 == key,
        forall|j: int| 0 <= j < first_key_index(s, key) ==> s[j].0 != key,
        first_key_index(s, key) == s.len() ==> forall|j: int|
            0 <= j < s.len() ==> s[j].0 != key,
    decreases s.len(),
{
    if s.len() > 0 && s[0].0 != key {
        lemma_first_key_index(s.drop_first(), key);
        assert forall|j: int| 0 <= j < first_key_index(s, key) implies s[j].0 != key by {
            if j > 0 {
                assert(s.drop_first()[j - 1].0 != key);
            }
        }
        if first_key_index(s, key) == s.len() {
            assert forall|j: int| 0 <= j < s.len() implies s[j].0 != key by {
                if j > 0 {
                    assert(s.drop_first()[j - 1].0 != key);
                }
            }
        }
    }
}

/// A pair sequence whose keys (first components) are pairwise distinct.
pub open spec fn distinct_keys(s: Seq<(usize, usize)>) -> bool {
    forall|i: int, j: int| 0 <= i < j < s.len() ==> s[i].0 != s[j].0
}

/// The principal entry chunk of an entry-point group. Meaningful only for
/// groups of entrypoint kind.
pub open spec fn entry_chunk_of(m: CompilationModel, g: usize) -> usize {
    match m.chunk_groups[g as int].kind {
        ChunkGroupKind::Entrypoint { entry_chunk, runtime_chunk } => entry_chunk,
        ChunkGroupKind::Normal => 0,
    }
}

/// The designated runtime chunk of an entry-point group. Meaningful only for
/// groups of entrypoint kind.
pub open spec fn runtime_chunk_of(m: CompilationModel, g: usize) -> usize {
    match m.chunk_groups[g as int].kind {
        ChunkGroupKind::Entrypoint { entry_chunk, runtime_chunk } => runtime_chunk,
        ChunkGroupKind::Normal => 0,
    }
}

/// Whether `c` is the entry chunk of some entry point.
pub open spec fn is_entry_chunk(m: CompilationModel, c: usize) -> bool {
    exists|i: int| 0 <= i < m.entrypoints.len() && entry_chunk_of(m, m.entrypoints[i]) == c
}

/// Per-chunk well-formedness: memberships are duplicate-free and in range,
/// entry modules are contained modules, and group membership is mirrored by
/// the group registry.
pub open spec fn wf_chunk(m: CompilationModel, c: int) -> bool {
    &&& distinct(m.chunk_modules[c])
    &&& forall|i: int|
        0 <= i < m.chunk_modules[c].len() ==> #[trigger] m.chunk_modules[c][i]
            < m.connections.len()
    &&& distinct_keys(m.chunk_entry_modules[c])
    &&& forall|i: int|
        0 <= i < m.chunk_entry_modules[c].len() ==> m.chunk_modules[c].contains(
            (#[trigger] m.chunk_entry_modules[c][i]).0,
        ) && m.chunk_entry_modules[c][i].1 < m.chunk_groups.len()
    &&& distinct(m.chunks[c].groups)
    &&& forall|i: int|
        0 <= i < m.chunks[c].groups.len() ==> (#[trigger] m.chunks[c].groups[i])
            < m.chunk_groups.len() && m.chunk_groups[m.chunks[c].groups[i] as int].chunks.contains(
            c as usize,
        )
}

/// Per-group well-formedness: the member list is duplicate-free, in range,
/// and mirrored by each member chunk's group list.
pub open spec fn wf_group(m: CompilationModel, g: int) -> bool {
    &&& distinct(m.chunk_groups[g].chunks)
    &&& forall|i: int|
        0 <= i < m.chunk_groups[g].chunks.len() ==> (#[trigger] m.chunk_groups[g].chunks[i])
            < m.chunks.len() && m.chunks[m.chunk_groups[g].chunks[i] as int].groups.contains(
            g as usize,
        )
}

/// An entry-point key denotes an entrypoint-kind group whose designated
/// chunks are in range.
pub open spec fn wf_entrypoint(m: CompilationModel, g: usize) -> bool {
    &&& g < m.chunk_groups.len()
    &&& m.chunk_groups[g as int].kind is Entrypoint
    &&& entry_chunk_of(m, g) < m.chunks.len()
    &&& runtime_chunk_of(m, g) < m.chunks.len()
}

/// Well-formedness of the whole compilation state: the registries agree on
/// sizes, every adjacency list is duplicate-free and in range, chunk/group
/// membership is consistent in both directions, and module references stay
/// inside the module registry.
pub open spec fn wf(m: CompilationModel) -> bool {
    &&& m.chunk_modules.len() == m.chunks.len()
    &&& m.chunk_entry_modules.len() == m.chunks.len()
    &&& forall|c: int| 0 <= c < m.chunks.len() ==> #[trigger] wf_chunk(m, c)
    &&& forall|g: int| 0 <= g < m.chunk_groups.len() ==> #[trigger] wf_group(m, g)
    &&& distinct(m.entrypoints)
    &&& forall|i: int| 0 <= i < m.entrypoints.len() ==> wf_entrypoint(m, #[trigger] m.entrypoints[i])
    &&& forall|mo: int, j: int|
        0 <= mo < m.connections.len() && 0 <= j < m.connections[mo].len()
            ==> (#[trigger] m.connections[mo][j]) < m.connections.len()
}

/// Model of allocating a fresh chunk in the chunk registry.
pub open spec fn spec_add_chunk(m: CompilationModel) -> CompilationModel {
    CompilationModel { chunks: m.chunks.push(empty_chunk()), ..m }
}

/// Model of appending a `ChunkAdd` record to the mutation log, when one is
/// kept.
pub open spec fn spec_record_chunk_add(m: CompilationModel, chunk: usize) -> CompilationModel {
    CompilationModel {
        mutations: match m.mutations {
            Some(log) => Some(log.push(Mutation::ChunkAdd { chunk })),
            None => None,
        },
        ..m
    }
}

/// Model of registering a chunk key in the chunk graph, giving it empty
/// membership relations.
pub open spec fn spec_graph_add_chunk(m: CompilationModel) -> CompilationModel {
    CompilationModel {
        chunk_modules: m.chunk_modules.push(Seq::empty()),
        chunk_entry_modules: m.chunk_entry_modules.push(Seq::empty()),
        ..m
    }
}

/// Model of redesignating the runtime chunk of an entry-point group.
pub open spec fn spec_set_runtime_chunk(m: CompilationModel, group: usize, chunk: usize)
    -> CompilationModel {
    if group < m.chunk_groups.len() {
        match m.chunk_groups[group as int].kind {
            ChunkGroupKind::Entrypoint { entry_chunk, runtime_chunk } => CompilationModel {
                chunk_groups: m.chunk_groups.update(
                    group as int,
                    ChunkGroupModel {
                        kind: ChunkGroupKind::Entrypoint { entry_chunk, runtime_chunk: chunk },
                        ..m.chunk_groups[group as int]
                    },
                ),
                ..m
            },
            ChunkGroupKind::Normal => m,
        }
    } else {
        m
    }
}

/// Model of adding a module to a chunk's membership relation. Adding an
/// already contained module changes nothing.
pub open spec fn spec_connect_module(m: CompilationModel, chunk: usize, module: usize)
    -> CompilationModel {
    if chunk < m.chunk_modules.len() {
        if m.chunk_modules[chunk as int].contains(module) {
            m
        } else {
            CompilationModel {
                chunk_modules: m.chunk_modules.update(
                    chunk as int,
                    m.chunk_modules[chunk as int].push(module),
                ),
                ..m
            }
        }
    } else {
        m
    }
}

/// Model of removing a module from a chunk's membership relation: the first
/// occurrence goes, later entries keep their order.
pub open spec fn spec_disconnect_module(m: CompilationModel, chunk: usize, module: usize)
    -> CompilationModel {
    if chunk < m.chunk_modules.len() {
        let mods = m.chunk_modules[chunk as int];
        let i = first_index(mods, module);
        if i < mods.len() {
            CompilationModel {
                chunk_modules: m.chunk_modules.update(chunk as int, mods.remove(i)),
                ..m
            }
        } else {
            m
        }
    } else {
        m
    }
}

/// Model of recording a module as an entry module of a chunk for the given
/// entry-point group. An existing record for the module keeps its position
/// and gets the new group.
pub open spec fn spec_connect_entry_module(
    m: CompilationModel,
    chunk: usize,
    module: usize,
    entrypoint: usize,
) -> CompilationModel {
    if chunk < m.chunk_entry_modules.len() {
        let entries = m.chunk_entry_modules[chunk as int];
        let i = first_key_index(entries, module);
        let updated = if i < entries.len() {
            entries.update(i, (module, entrypoint))
        } else {
            entries.push((module, entrypoint))
        };
        CompilationModel {
            chunk_entry_modules: m.chunk_entry_modules.update(chunk as int, updated),
            ..m
        }
    } else {
        m
    }
}

/// Model of removing a module's entry-module record from a chunk, if one is
/// present.
pub open spec fn spec_disconnect_entry_module(m: CompilationModel, chunk: usize, module: usize)
    -> CompilationModel {
    if chunk < m.chunk_entry_modules.len() {
        let entries = m.chunk_entry_modules[chunk as int];
        let i = first_key_index(entries, module);
        if i < entries.len() {
            CompilationModel {
                chunk_entry_modules: m.chunk_entry_modules.update(chunk as int, entries.remove(i)),
                ..m
            }
        } else {
            m
        }
    } else {
        m
    }
}

/// Model of registering `new_chunk` in one group that `source` belongs to:
/// the new chunk enters the group's ordering right after `source`, and the
/// group is appended to the new chunk's group list.
pub open spec fn spec_register_in_group(
    m: CompilationModel,
    group: usize,
    source: usize,
    new_chunk: usize,
) -> CompilationModel {
    if group < m.chunk_groups.len() && new_chunk < m.chunks.len() {
        let members = m.chunk_groups[group as int].chunks;
        let i = first_index(members, source);
        let inserted = if i < members.len() {
            members.insert(i + 1, new_chunk)
        } else {
            members.push(new_chunk)
        };
        CompilationModel {
            chunk_groups: m.chunk_groups.update(
                group as int,
                ChunkGroupModel { chunks: inserted, ..m.chunk_groups[group as int] },
            ),
            chunks: m.chunks.update(
                new_chunk as int,
                ChunkModel {
                    groups: m.chunks[new_chunk as int].groups.push(group),
                    ..m.chunks[new_chunk as int]
                },
            ),
            ..m
        }
    } else {
        m
    }
}

/// Model of the split operation over a prefix of the source chunk's group
/// list: `new_chunk` is registered into each listed group in order.
pub open spec fn spec_split_iter(
    m: CompilationModel,
    source: usize,
    new_chunk: usize,
    gs: Seq<usize>,
) -> CompilationModel
    decreases gs.len(),
{
    if gs.len() == 0 {
        m
    } else {
        spec_register_in_group(
            spec_split_iter(m, source, new_chunk, gs.drop_last()),
            gs.last(),
            source,
            new_chunk,
        )
    }
}

/// Model of splitting: `new_chunk` is registered into every group `source`
/// belongs to.
pub open spec fn spec_split(m: CompilationModel, source: usize, new_chunk: usize)
    -> CompilationModel {
    if source < m.chunks.len() {
        spec_split_iter(m, source, new_chunk, m.chunks[source as int].groups)
    } else {
        m
    }
}

/// Model of inserting a chunk at the front of a group's ordering.
pub open spec fn spec_unshift_chunk(m: CompilationModel, group: usize, chunk: usize)
    -> CompilationModel {
    if group < m.chunk_groups.len() {
        CompilationModel {
            chunk_groups: m.chunk_groups.update(
                group as int,
                ChunkGroupModel {
                    chunks: m.chunk_groups[group as int].chunks.insert(0, chunk),
                    ..m.chunk_groups[group as int]
                },
            ),
            ..m
        }
    } else {
        m
    }
}

/// Model of appending a group key to a chunk's group list.
pub open spec fn spec_chunk_add_group(m: CompilationModel, chunk: usize, group: usize)
    -> CompilationModel {
    if chunk < m.chunks.len() {
        CompilationModel {
            chunks: m.chunks.update(
                chunk as int,
                ChunkModel {
                    groups: m.chunks[chunk as int].groups.push(group),
                    ..m.chunks[chunk as int]
                },
            ),
            ..m
        }
    } else {
        m
    }
}

/// Model of overwriting a chunk's runtime-applicability spec with a snapshot
/// of `runtime`.
pub open spec fn spec_set_runtime(m: CompilationModel, chunk: usize, runtime: Seq<u64>)
    -> CompilationModel {
    if chunk < m.chunks.len() {
        CompilationModel {
            chunks: m.chunks.update(
                chunk as int,
                ChunkModel { runtime, ..m.chunks[chunk as int] },
            ),
            ..m
        }
    } else {
        m
    }
}

/// Model of appending a name hint to a chunk.
pub open spec fn spec_add_id_name_hint(m: CompilationModel, chunk: usize, hint: Seq<char>)
    -> CompilationModel {
    if chunk < m.chunks.len() {
        CompilationModel {
            chunks: m.chunks.update(
                chunk as int,
                ChunkModel {
                    id_name_hints: m.chunks[chunk as int].id_name_hints.push(hint),
                    ..m.chunks[chunk as int]
                },
            ),
            ..m
        }
    } else {
        m
    }
}

/// Model of setting a chunk's prevent-integration flag.
pub open spec fn spec_set_prevent_integration(m: CompilationModel, chunk: usize, value: bool)
    -> CompilationModel {
    if chunk < m.chunks.len() {
        CompilationModel {
            chunks: m.chunks.update(
                chunk as int,
                ChunkModel { prevent_integration: value, ..m.chunks[chunk as int] },
            ),
            ..m
        }
    } else {
        m
    }
}

/// Linear scan for a value in a key vector.
pub fn vec_contains(v: &Vec<usize>, x: usize) -> (r: bool)
    ensures
        r == v@.contains(x),
{
    let mut i: usize = 0;
    while i < v.len()
        invariant
            i <= v@.len(),
            forall|j: int| 0 <= j < i ==> v@[j] != x,
        decreases v@.len() - i,
    {
        if v[i] == x {
            proof {
                assert(v@.contains(x));
            }
            return true;
        }
        i += 1;
    }
    proof {
        if v@.contains(x) {
            let w = choose|w: int| 0 <= w < v@.len() && v@[w] == x;
            assert(v@[w] != x);
        }
    }
    false
}

/// Index of the first occurrence of `x` in `v`, or `v.len()` when absent.
fn find_first_index(v: &Vec<usize>, x: usize) -> (r: usize)
    ensures
        r == first_index(v@, x),
{
    let mut i: usize = 0;
    while i < v.len()
        invariant
            i <= v@.len(),
            forall|j: int| 0 <= j < i ==> v@[j] != x,
        decreases v@.len() - i,
    {
        if v[i] == x {
            proof {
                lemma_first_index(v@, x);
                assert(i == first_index(v@, x));
            }
            return i;
        }
        i += 1;
    }
    proof {
        lemma_first_index(v@, x);
    }
    i
}

/// Index of the first pair in `v` whose key is `key`, or `v.len()` when no
/// pair has that key.
fn find_first_key_index(v: &Vec<(usize, usize)>, key: usize) -> (r: usize)
    ensures
        r == first_key_index(v@, key),
{
    let mut i: usize = 0;
    while i < v.len()
        invariant
            i <= v@.len(),
            forall|j: int| 0 <= j < i ==> v@[j].0 != key,
        decreases v@.len() - i,
    {
        if v[i].0 == key {
            proof {
                lemma_first_key_index(v@, key);
            }
            return i;
        }
        i += 1;
    }
    proof {
        lemma_first_key_index(v@, key);
    }
    i
}

impl Chunk {
    /// A chunk as freshly allocated: no runtime spec, no hints, no groups.
    pub fn new_empty() -> (r: Chunk)
        ensures
            r@ == empty_chunk(),
    {
        let r = Chunk {
            runtime: Vec::new(),
            id_name_hints: Vec::new(),
            prevent_integration: false,
            groups: Vec::new(),
        };
        proof {
            assert(r@ =~~= empty_chunk());
        }
        r
    }

    /// Append a group key to this chunk's group list.
    pub fn add_group(&mut self, group: usize)
        ensures
            final(self)@ == (ChunkModel { groups: old(self)@.groups.push(group), ..old(self)@ }),
    {
        self.groups.push(group);
        proof {
            assert(self@ =~~= (ChunkModel { groups: old(self)@.groups.push(group), ..old(self)@ }));
        }
    }

    /// Overwrite this chunk's runtime-applicability spec with a snapshot.
    pub fn set_runtime(&mut self, runtime: Vec<u64>)
        ensures
            final(self)@ == (ChunkModel { runtime: runtime@, ..old(self)@ }),
    {
        self.runtime = runtime;
        proof {
            assert(self@ =~~= (ChunkModel { runtime: self.runtime@, ..old(self)@ }));
        }
    }

    /// The runtime-applicability spec of this chunk.
    pub fn runtime(&self) -> (r: &Vec<u64>)
        ensures
            r@ == self@.runtime,
    {
        &self.runtime
    }

    /// Append a name hint for later id assignment.
    pub fn add_id_name_hints(&mut self, hint: String)
        ensures
            final(self)@ == (ChunkModel {
                id_name_hints: old(self)@.id_name_hints.push(hint@),
                ..old(self)@
            }),
    {
        self.id_name_hints.push(hint);
        proof {
            assert(self@ =~~= (ChunkModel {
                id_name_hints: old(self)@.id_name_hints.push(old(self).id_name_hints@.push(
                    self.id_name_hints@.last(),
                ).last()@),
                ..old(self)@
            }));
        }
    }

    /// Set the prevent-integration flag.
    pub fn set_prevent_integration(&mut self, value: bool)
        ensures
            final(self)@ == (ChunkModel { prevent_integration: value, ..old(self)@ }),
    {
        self.prevent_integration = value;
        proof {
            assert(self@ =~~= (ChunkModel { prevent_integration: value, ..old(self)@ }));
        }
    }
}

impl ChunkGroup {
    /// The principal entry chunk. The group must be an entry point.
    pub fn get_entrypoint_chunk(&self) -> (r: usize)
        requires
            self@.kind is Entrypoint,
        ensures
            r == self@.kind->Entrypoint_entry_chunk,
    {
        match self.kind {
            ChunkGroupKind::Entrypoint { entry_chunk, runtime_chunk: _ } => entry_chunk,
            ChunkGroupKind::Normal => 0,
        }
    }

    /// The designated runtime chunk. The group must be an entry point.
    pub fn get_runtime_chunk(&self) -> (r: usize)
        requires
            self@.kind is Entrypoint,
        ensures
            r == self@.kind->Entrypoint_runtime_chunk,
    {
        match self.kind {
            ChunkGroupKind::Entrypoint { entry_chunk: _, runtime_chunk } => runtime_chunk,
            ChunkGroupKind::Normal => 0,
        }
    }

    /// Redesignate the runtime chunk. The group must be an entry point.
    pub fn set_runtime_chunk(&mut self, chunk: usize)
        requires
            old(self)@.kind is Entrypoint,
        ensures
            final(self)@ == (ChunkGroupModel {
                kind: ChunkGroupKind::Entrypoint {
                    entry_chunk: old(self)@.kind->Entrypoint_entry_chunk,
                    runtime_chunk: chunk,
                },
                ..old(self)@
            }),
    {
        match self.kind {
            ChunkGroupKind::Entrypoint { entry_chunk, runtime_chunk: _ } => {
                self.kind = ChunkGroupKind::Entrypoint { entry_chunk, runtime_chunk: chunk };
            },
            ChunkGroupKind::Normal => {},
        }
    }

    /// Insert a chunk at the front of this group's load ordering.
    pub fn unshift_chunk(&mut self, chunk: usize)
        ensures
            final(self)@ == (ChunkGroupModel {
                chunks: old(self)@.chunks.insert(0, chunk),
                ..old(self)@
            }),
    {
        self.chunks.insert(0, chunk);
    }
}

impl ChunkGraph {
    /// Register a freshly allocated chunk key, with empty membership
    /// relations. Keys are registered in allocation order.
    pub fn add_chunk(&mut self, chunk: usize)
        requires
            chunk == old(self)@.chunk_modules.len(),
            chunk == old(self)@.chunk_entry_modules.len(),
        ensures
            final(self)@.chunk_modules == old(self)@.chunk_modules.push(Seq::<usize>::empty()),
            final(self)@.chunk_entry_modules == old(self)@.chunk_entry_modules.push(
                Seq::<(usize, usize)>::empty(),
            ),
    {
        self.chunk_modules.push(Vec::new());
        self.chunk_entry_modules.push(Vec::new());
        proof {
            assert(self@.chunk_modules =~~= old(self)@.chunk_modules.push(Seq::<usize>::empty()));
            assert(self@.chunk_entry_modules =~~= old(self)@.chunk_entry_modules.push(
                Seq::<(usize, usize)>::empty(),
            ));
        }
    }

    /// The modules contained in a chunk, as a snapshot.
    pub fn get_chunk_modules(&self, chunk: usize) -> (r: Vec<usize>)
        requires
            chunk < self@.chunk_modules.len(),
        ensures
            r@ == self@.chunk_modules[chunk as int],
    {
        let src = &self.chunk_modules[chunk];
        let mut out: Vec<usize> = Vec::new();
        let mut i: usize = 0;
        while i < src.len()
            invariant
                i <= src@.len(),
                out@ == src@.subrange(0, i as int),
                src@ == self@.chunk_modules[chunk as int],
        decreases src@.len() - i,
        {
            out.push(src[i]);
            proof {
                assert(out@ =~= src@.subrange(0, i + 1 as int));
            }
            i += 1;
        }
        proof {
            assert(out@ =~= self@.chunk_modules[chunk as int]);
        }
        out
    }

    /// Add `module` to `chunk`'s membership relation. A module that is
    /// already contained is left as is.
    pub fn connect_chunk_and_module(&mut self, chunk: usize, module: usize)
        requires
            chunk < old(self)@.chunk_modules.len(),
        ensures
            final(self)@.chunk_entry_modules == old(self)@.chunk_entry_modules,
            final(self)@.chunk_modules == (if old(self)@.chunk_modules[chunk as int].contains(
                module,
            ) {
                old(self)@.chunk_modules
            } else {
                old(self)@.chunk_modules.update(
                    chunk as int,
                    old(self)@.chunk_modules[chunk as int].push(module),
                )
            }),
    {
        if !vec_contains(&self.chunk_modules[chunk], module) {
            self.chunk_modules[chunk].push(module);
            proof {
                assert(self@.chunk_modules =~~= old(self)@.chunk_modules.update(
                    chunk as int,
                    old(self)@.chunk_modules[chunk as int].push(module),
                ));
                assert(self@.chunk_entry_modules =~~= old(self)@.chunk_entry_modules);
            }
        }
    }

    /// Remove `module` from `chunk`'s membership relation: the first
    /// occurrence goes, later entries keep their order. A module that is not
    /// contained is left as is.
    pub fn disconnect_chunk_and_module(&mut self, chunk: usize, module: usize)
        requires
            chunk < old(self)@.chunk_modules.len(),
        ensures
            final(self)@.chunk_entry_modules == old(self)@.chunk_entry_modules,
            final(self)@.chunk_modules == ({
                let mods = old(self)@.chunk_modules[chunk as int];
                let i = first_index(mods, module);
                if i < mods.len() {
                    old(self)@.chunk_modules.update(chunk as int, mods.remove(i))
                } else {
                    old(self)@.chunk_modules
                }
            }),
    {
        proof {
            lemma_first_index(self@.chunk_modules[chunk as int], module);
        }
        let idx = find_first_index(&self.chunk_modules[chunk], module);
        if idx < self.chunk_modules[chunk].len() {
            self.chunk_modules[chunk].remove(idx);
            proof {
                assert(self@.chunk_modules =~~= old(self)@.chunk_modules.update(
                    chunk as int,
                    old(self)@.chunk_modules[chunk as int].remove(idx as int),
                ));
                assert(self@.chunk_entry_modules =~~= old(self)@.chunk_entry_modules);
            }
        }
    }

    /// Record `module` as an entry module of `chunk` for the entry point
    /// `entrypoint`. An existing record for the module keeps its position and
    /// gets the new group.
    pub fn connect_chunk_and_entry_module(&mut self, chunk: usize, module: usize, entrypoint: usize)
        requires
            chunk < old(self)@.chunk_entry_modules.len(),
        ensures
            final(self)@.chunk_modules == old(self)@.chunk_modules,
            final(self)@.chunk_entry_modules == ({
                let entries = old(self)@.chunk_entry_modules[chunk as int];
                let i = first_key_index(entries, module);
                let updated = if i < entries.len() {
                    entries.update(i, (module, entrypoint))
                } else {
                    entries.push((module, entrypoint))
                };
                old(self)@.chunk_entry_modules.update(chunk as int, updated)
            }),
    {
        proof {
            lemma_first_key_index(self@.chunk_entry_modules[chunk as int], module);
        }
        let idx = find_first_key_index(&self.chunk_entry_modules[chunk], module);
        if idx < self.chunk_entry_modules[chunk].len() {
            self.chunk_entry_modules[chunk][idx] = (module, entrypoint);
        } else {
            self.chunk_entry_modules[chunk].push((module, entrypoint));
        }
        proof {
            let entries = old(self)@.chunk_entry_modules[chunk as int];
            let i = first_key_index(entries, module);
            let updated = if i < entries.len() {
                entries.update(i, (module, entrypoint))
            } else {
                entries.push((module, entrypoint))
            };
            assert(self@.chunk_modules =~~= old(self)@.chunk_modules);
            assert(self@.chunk_entry_modules =~~= old(self)@.chunk_entry_modules.update(
                chunk as int,
                updated,
            ));
        }
    }

    /// Remove `module`'s entry-module record from `chunk`, if one is present.
    pub fn disconnect_chunk_and_entry_module(&mut self, chunk: usize, module: usize)
        requires
            chunk < old(self)@.chunk_entry_modules.len(),
        ensures
            final(self)@.chunk_modules == old(self)@.chunk_modules,
            final(self)@.chunk_entry_modules == ({
                let entries = old(self)@.chunk_entry_modules[chunk as int];
                let i = first_key_index(entries, module);
                if i < entries.len() {
                    old(self)@.chunk_entry_modules.update(chunk as int, entries.remove(i))
                } else {
                    old(self)@.chunk_entry_modules
                }
            }),
    {
        proof {
            lemma_first_key_index(self@.chunk_entry_modules[chunk as int], module);
        }
        let idx = find_first_key_index(&self.chunk_entry_modules[chunk], module);
        if idx < self.chunk_entry_modules[chunk].len() {
            self.chunk_entry_modules[chunk].remove(idx);
            proof {
                assert(self@.chunk_modules =~~= old(self)@.chunk_modules);
                assert(self@.chunk_entry_modules =~~= old(self)@.chunk_entry_modules.update(
                    chunk as int,
                    old(self)@.chunk_entry_modules[chunk as int].remove(idx as int),
                ));
            }
        }
    }
}

impl Compilation {
    /// Allocate a fresh chunk in the chunk registry and return its key.
    pub fn add_chunk(&mut self) -> (key: usize)
        ensures
            key == old(self)@.chunks.len(),
            final(self)@ == spec_add_chunk(old(self)@),
    {
        let key = self.chunks.len();
        self.chunks.push(Chunk::new_empty());
        proof {
            assert(self@ =~~= spec_add_chunk(old(self)@));
        }
        key
    }

    /// Append a `ChunkAdd` record to the mutation log; a no-op when
    /// incremental tracking is disabled.
    pub fn record_chunk_add(&mut self, chunk: usize)
        ensures
            final(self)@ == spec_record_chunk_add(old(self)@, chunk),
    {
        match &mut self.mutations {
            Some(log) => {
                log.push(Mutation::ChunkAdd { chunk });
            },
            None => {},
        }
        proof {
            assert(self@ =~~= spec_record_chunk_add(old(self)@, chunk));
        }
    }

    /// The structural split of a chunk: register `new_chunk` into every group
    /// `source` belongs to, right after `source` in each group's ordering, so
    /// existing load ordering keeps resolving.
    pub fn split_chunk(&mut self, source: usize, new_chunk: usize)
        requires
            source < old(self)@.chunks.len(),
            new_chunk < old(self)@.chunks.len(),
            source != new_chunk,
            forall|i: int|
                0 <= i < old(self)@.chunks[source as int].groups.len() ==> (#[trigger] old(
                    self,
                )@.chunks[source as int].groups[i]) < old(self)@.chunk_groups.len(),
        ensures
            final(self)@ == spec_split(old(self)@, source, new_chunk),
    {
        let ghost gs = old(self)@.chunks[source as int].groups;
        let mut i: usize = 0;
        while i < self.chunks[source].groups.len()
            invariant
                source < self@.chunks.len(),
                new_chunk < self@.chunks.len(),
                source != new_chunk,
                self@.chunks.len() == old(self)@.chunks.len(),
                self@.chunk_groups.len() == old(self)@.chunk_groups.len(),
                self@.chunks[source as int].groups == gs,
                gs == old(self)@.chunks[source as int].groups,
                forall|j: int| 0 <= j < gs.len() ==> (#[trigger] gs[j]) < self@.chunk_groups.len(),
                i <= gs.len(),
                self@ == spec_split_iter(old(self)@, source, new_chunk, gs.take(i as int)),
            decreases gs.len() - i,
        {
            let ghost prev = self@;
            let g = self.chunks[source].groups[i];
            let members_idx = find_first_index(&self.chunk_groups[g].chunks, source);
            if members_idx < self.chunk_groups[g].chunks.len() {
                self.chunk_groups[g].chunks.insert(members_idx + 1, new_chunk);
            } else {
                self.chunk_groups[g].chunks.push(new_chunk);
            }
            self.chunks[new_chunk].groups.push(g);
            proof {
                assert(self@ =~~= spec_register_in_group(prev, g, source, new_chunk));
                assert(gs.take(i + 1).drop_last() =~= gs.take(i as int));
                assert(gs.take(i + 1).last() == g);
                assert(self@ == spec_split_iter(old(self)@, source, new_chunk, gs.take(i + 1)));
            }
            i += 1;
        }
        proof {
            assert(gs.take(gs.len() as int) =~= gs);
        }
    }
}

} // verus!
