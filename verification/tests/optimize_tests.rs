use bundler_passes::chunk_graph::{
    Chunk, ChunkGraph, ChunkGroup, ChunkGroupKind, Compilation, ModuleGraph, Mutation,
};
use bundler_passes::optimize::{ensure_entry_exports, optimize_runtime_chunks};

fn chunk() -> Chunk {
    Chunk {
        runtime: Vec::new(),
        id_name_hints: Vec::new(),
        prevent_integration: false,
        groups: Vec::new(),
    }
}

/// Entry point `Home` has entry chunk holding modules `home` and `shared`;
/// its runtime chunk is that entry chunk; an async chunk's module `lazy`
/// holds a live reference to `shared`. The containment pass must mark the
/// entry chunk dirty, create a fresh chunk, move both modules there, and
/// reassign the runtime chunk.
#[test]
fn containment_relocates_referenced_entry_chunk() {
    // modules: 0 = home, 1 = shared, 2 = lazy; chunks: 0 = entry, 1 = async
    let mut c1 = chunk();
    c1.groups = vec![0];
    let mut c2 = chunk();
    c2.groups = vec![1];
    let mut compilation = Compilation {
        chunks: vec![c1, c2],
        chunk_groups: vec![
            ChunkGroup {
                chunks: vec![0],
                is_initial: true,
                kind: ChunkGroupKind::Entrypoint { entry_chunk: 0, runtime_chunk: 0 },
            },
            ChunkGroup { chunks: vec![1], is_initial: false, kind: ChunkGroupKind::Normal },
        ],
        entrypoints: vec![0],
        chunk_graph: ChunkGraph {
            chunk_modules: vec![vec![0, 1], vec![2]],
            chunk_entry_modules: vec![vec![(0, 0)], vec![]],
        },
        module_graph: ModuleGraph { connections: vec![vec![], vec![], vec![1]] },
        mutations: Some(Vec::new()),
    };
    ensure_entry_exports(&mut compilation);

    // a fresh chunk was allocated and logged
    assert_eq!(compilation.chunks.len(), 3);
    assert_eq!(compilation.mutations, Some(vec![Mutation::ChunkAdd { chunk: 2 }]));
    // the entry chunk was emptied; its whole module set moved together
    assert_eq!(compilation.chunk_graph.chunk_modules[0], Vec::<usize>::new());
    assert_eq!(compilation.chunk_graph.chunk_modules[2], vec![0, 1]);
    // `lazy`'s reference target `shared` now resolves in the fresh chunk
    assert!(compilation.chunk_graph.chunk_modules[2].contains(&1));
    // the entry modules moved with their owning entry point
    assert_eq!(compilation.chunk_graph.chunk_entry_modules[0], Vec::<(usize, usize)>::new());
    assert_eq!(compilation.chunk_graph.chunk_entry_modules[2], vec![(0, 0), (1, 0)]);
    // the runtime designation followed the contents
    assert_eq!(
        compilation.chunk_groups[0].kind,
        ChunkGroupKind::Entrypoint { entry_chunk: 0, runtime_chunk: 2 },
    );
    // the fresh chunk joined the entry chunk's group, right after it
    assert_eq!(compilation.chunk_groups[0].chunks, vec![0, 2]);
    assert_eq!(compilation.chunks[2].groups, vec![0]);
    // the emptied entry chunk persists as the group's anchor
    assert_eq!(compilation.chunk_groups[0].chunks[0], 0);
}

/// Entry point `App` has entry chunk `C1`; the initial group holding `C1`
/// has two member chunks from an earlier splitting pass; the runtime chunk
/// is still `C1`. The separation pass must create a fresh runtime chunk,
/// designate it, put it first in the ordering, and protect it.
#[test]
fn runtime_separation_splits_fused_entrypoint() {
    let mut c1 = chunk();
    c1.runtime = vec![7];
    c1.groups = vec![0];
    let mut cvendor = chunk();
    cvendor.groups = vec![0];
    let mut compilation = Compilation {
        chunks: vec![c1, cvendor],
        chunk_groups: vec![ChunkGroup {
            chunks: vec![0, 1],
            is_initial: true,
            kind: ChunkGroupKind::Entrypoint { entry_chunk: 0, runtime_chunk: 0 },
        }],
        entrypoints: vec![0],
        chunk_graph: ChunkGraph {
            chunk_modules: vec![vec![0], vec![1]],
            chunk_entry_modules: vec![vec![(0, 0)], vec![]],
        },
        module_graph: ModuleGraph { connections: vec![vec![], vec![]] },
        mutations: Some(Vec::new()),
    };
    optimize_runtime_chunks(&mut compilation);

    assert_eq!(compilation.chunks.len(), 3);
    assert_eq!(compilation.mutations, Some(vec![Mutation::ChunkAdd { chunk: 2 }]));
    // the runtime designation moved to the fresh chunk
    assert_eq!(
        compilation.chunk_groups[0].kind,
        ChunkGroupKind::Entrypoint { entry_chunk: 0, runtime_chunk: 2 },
    );
    // the fresh chunk loads first
    assert_eq!(compilation.chunk_groups[0].chunks, vec![2, 0, 1]);
    // it snapshots the entry chunk's runtime spec, is tagged, and protected
    assert_eq!(compilation.chunks[2].runtime, vec![7]);
    assert_eq!(compilation.chunks[2].id_name_hints, vec!["runtime".to_string()]);
    assert!(compilation.chunks[2].prevent_integration);
    assert_eq!(compilation.chunks[2].groups, vec![0]);
    // no module moved
    assert_eq!(compilation.chunk_graph.chunk_modules[0], vec![0]);
    assert_eq!(compilation.chunk_graph.chunk_modules[1], vec![1]);
    assert_eq!(compilation.chunk_graph.chunk_modules[2], Vec::<usize>::new());
}

/// An entry chunk with no external references into it, whose group has
/// exactly one chunk: neither pass produces any mutation or log entry.
#[test]
fn untouched_entrypoint_is_a_no_op() {
    let mut c1 = chunk();
    c1.groups = vec![0];
    let mut compilation = Compilation {
        chunks: vec![c1],
        chunk_groups: vec![ChunkGroup {
            chunks: vec![0],
            is_initial: true,
            kind: ChunkGroupKind::Entrypoint { entry_chunk: 0, runtime_chunk: 0 },
        }],
        entrypoints: vec![0],
        chunk_graph: ChunkGraph {
            chunk_modules: vec![vec![0]],
            chunk_entry_modules: vec![vec![(0, 0)]],
        },
        module_graph: ModuleGraph { connections: vec![vec![]] },
        mutations: Some(Vec::new()),
    };
    ensure_entry_exports(&mut compilation);
    optimize_runtime_chunks(&mut compilation);

    assert_eq!(compilation.chunks.len(), 1);
    assert_eq!(compilation.mutations, Some(Vec::new()));
    assert_eq!(compilation.chunk_graph.chunk_modules[0], vec![0]);
    assert_eq!(compilation.chunk_groups[0].chunks, vec![0]);
    assert_eq!(
        compilation.chunk_groups[0].kind,
        ChunkGroupKind::Entrypoint { entry_chunk: 0, runtime_chunk: 0 },
    );
}

/// Memberships are conserved: modules move, they are never duplicated or
/// dropped.
#[test]
fn containment_conserves_memberships() {
    let mut c1 = chunk();
    c1.groups = vec![0];
    let mut c2 = chunk();
    c2.groups = vec![1];
    let mut compilation = Compilation {
        chunks: vec![c1, c2],
        chunk_groups: vec![
            ChunkGroup {
                chunks: vec![0],
                is_initial: true,
                kind: ChunkGroupKind::Entrypoint { entry_chunk: 0, runtime_chunk: 0 },
            },
            ChunkGroup { chunks: vec![1], is_initial: false, kind: ChunkGroupKind::Normal },
        ],
        entrypoints: vec![0],
        chunk_graph: ChunkGraph {
            chunk_modules: vec![vec![0, 1], vec![2]],
            chunk_entry_modules: vec![vec![(0, 0)], vec![]],
        },
        module_graph: ModuleGraph { connections: vec![vec![], vec![], vec![0]] },
        mutations: None,
    };
    let before: usize = compilation.chunk_graph.chunk_modules.iter().map(|m| m.len()).sum();
    ensure_entry_exports(&mut compilation);
    let after: usize = compilation.chunk_graph.chunk_modules.iter().map(|m| m.len()).sum();
    assert_eq!(before, after);
    // with the log disabled, nothing is recorded
    assert_eq!(compilation.mutations, None);
}

/// An entry point whose runtime chunk is already separate is not selected,
/// even when its initial group has several chunks.
#[test]
fn already_split_runtime_left_untouched() {
    let mut c1 = chunk();
    c1.groups = vec![0];
    let mut crt = chunk();
    crt.groups = vec![0];
    let mut compilation = Compilation {
        chunks: vec![c1, crt],
        chunk_groups: vec![ChunkGroup {
            chunks: vec![1, 0],
            is_initial: true,
            kind: ChunkGroupKind::Entrypoint { entry_chunk: 0, runtime_chunk: 1 },
        }],
        entrypoints: vec![0],
        chunk_graph: ChunkGraph {
            chunk_modules: vec![vec![0], vec![]],
            chunk_entry_modules: vec![vec![(0, 0)], vec![]],
        },
        module_graph: ModuleGraph { connections: vec![vec![]] },
        mutations: Some(Vec::new()),
    };
    optimize_runtime_chunks(&mut compilation);
    assert_eq!(compilation.chunks.len(), 2);
    assert_eq!(compilation.mutations, Some(Vec::new()));
}

/// Running the containment pass twice performs zero additional relocations:
/// the second run finds no dirty entry chunk.
#[test]
fn containment_pass_is_idempotent() {
    let mut c1 = chunk();
    c1.groups = vec![0];
    let mut c2 = chunk();
    c2.groups = vec![1];
    let mut compilation = Compilation {
        chunks: vec![c1, c2],
        chunk_groups: vec![
            ChunkGroup {
                chunks: vec![0],
                is_initial: true,
                kind: ChunkGroupKind::Entrypoint { entry_chunk: 0, runtime_chunk: 0 },
            },
            ChunkGroup { chunks: vec![1], is_initial: false, kind: ChunkGroupKind::Normal },
        ],
        entrypoints: vec![0],
        chunk_graph: ChunkGraph {
            chunk_modules: vec![vec![0, 1], vec![2]],
            chunk_entry_modules: vec![vec![(0, 0)], vec![]],
        },
        module_graph: ModuleGraph { connections: vec![vec![], vec![], vec![1]] },
        mutations: Some(Vec::new()),
    };
    ensure_entry_exports(&mut compilation);
    assert_eq!(compilation.chunks.len(), 3);
    ensure_entry_exports(&mut compilation);
    // no further chunk was created, nothing else was logged
    assert_eq!(compilation.chunks.len(), 3);
    assert_eq!(compilation.mutations, Some(vec![Mutation::ChunkAdd { chunk: 2 }]));
}

/// Two entry points: only the referenced entry chunk is relocated, and a
/// module shared into a second chunk keeps that other membership.
#[test]
fn containment_touches_only_referenced_entrypoints() {
    let mut c1 = chunk();
    c1.groups = vec![0];
    let mut c2 = chunk();
    c2.groups = vec![1];
    let mut c3 = chunk();
    c3.groups = vec![2];
    let mut compilation = Compilation {
        chunks: vec![c1, c2, c3],
        chunk_groups: vec![
            ChunkGroup {
                chunks: vec![0],
                is_initial: true,
                kind: ChunkGroupKind::Entrypoint { entry_chunk: 0, runtime_chunk: 0 },
            },
            ChunkGroup {
                chunks: vec![1],
                is_initial: true,
                kind: ChunkGroupKind::Entrypoint { entry_chunk: 1, runtime_chunk: 1 },
            },
            ChunkGroup { chunks: vec![2], is_initial: false, kind: ChunkGroupKind::Normal },
        ],
        entrypoints: vec![0, 1],
        chunk_graph: ChunkGraph {
            chunk_modules: vec![vec![0], vec![1], vec![2]],
            chunk_entry_modules: vec![vec![(0, 0)], vec![(1, 1)], vec![]],
        },
        // the async chunk's module references only entry chunk 1's module
        module_graph: ModuleGraph { connections: vec![vec![], vec![], vec![1]] },
        mutations: Some(Vec::new()),
    };
    ensure_entry_exports(&mut compilation);
    assert_eq!(compilation.chunks.len(), 4);
    // entry chunk 0 untouched, entry chunk 1 drained into the fresh chunk
    assert_eq!(compilation.chunk_graph.chunk_modules[0], vec![0]);
    assert_eq!(compilation.chunk_graph.chunk_modules[1], Vec::<usize>::new());
    assert_eq!(compilation.chunk_graph.chunk_modules[3], vec![1]);
    assert_eq!(
        compilation.chunk_groups[0].kind,
        ChunkGroupKind::Entrypoint { entry_chunk: 0, runtime_chunk: 0 },
    );
    assert_eq!(
        compilation.chunk_groups[1].kind,
        ChunkGroupKind::Entrypoint { entry_chunk: 1, runtime_chunk: 3 },
    );
}
