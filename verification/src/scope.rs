//! Scope-chain variable resolution with negative-lookup caching.
//!
//! Scopes form a parent chain; each scope maps variable names to variable
//! records. Two sentinel record keys — a tombstone and an undefined marker —
//! stand for "known absent". Resolution walks the chain outward; a miss that
//! walked through a parent chain is cached as a tombstone in the starting
//! scope, which never changes what any later resolution returns.
//!
//! Names are interned: the logic only ever compares them, so they appear
//! here as integer keys. Scope, variable and tag records live in arenas
//! addressed by insertion index.

use vstd::prelude::*;

verus! {

/// The sentinel marking a cached negative lookup.
pub const TOMBSTONE: u64 = 0xFFFF_FFFF_FFFF_FFFF;

/// The sentinel marking a name known to be undefined.
pub const UNDEFINED: u64 = 0xFFFF_FFFF_FFFF_FFFE;

/// Variable kind flags, one bit each.
#[derive(Debug, Clone, Copy, PartialEq, Eq, Structural)]
pub struct VariableInfoFlags {
    pub bits: u8,
}

pub const FLAG_FREE: u8 = 1;

pub const FLAG_NORMAL: u8 = 2;

pub const FLAG_TAGGED: u8 = 4;

impl VariableInfoFlags {
    pub fn evaluated() -> (r: VariableInfoFlags)
        ensures
            r.bits == 0,
    {
        VariableInfoFlags { bits: 0 }
    }

    pub fn free() -> (r: VariableInfoFlags)
        ensures
            r.bits == FLAG_FREE,
    {
        VariableInfoFlags { bits: FLAG_FREE }
    }

    pub fn normal() -> (r: VariableInfoFlags)
        ensures
            r.bits == FLAG_NORMAL,
    {
        VariableInfoFlags { bits: FLAG_NORMAL }
    }

    pub fn tagged() -> (r: VariableInfoFlags)
        ensures
            r.bits == FLAG_TAGGED,
    {
        VariableInfoFlags { bits: FLAG_TAGGED }
    }
}

/// A tag attached to a variable, with an optional next tag in a chain. The
/// opaque payload tags carry elsewhere stays outside the verified library.
#[derive(Debug, Clone, Copy, PartialEq, Eq, Structural)]
pub struct TagInfo {
    pub tag: u64,
    pub next: Option<u64>,
}

/// One variable record.
#[derive(Debug, Clone, Copy, PartialEq, Eq, Structural)]
pub struct VariableInfo {
    pub id: u64,
    pub declared_scope: usize,
    pub name: Option<u64>,
    pub flags: VariableInfoFlags,
    pub tag_info: Option<u64>,
}

impl VariableInfo {
    pub fn id(&self) -> (r: u64)
        ensures
            r == self.id,
    {
        self.id
    }

    pub fn is_free(&self) -> (r: bool)
        ensures
            r == (self.flags.bits & FLAG_FREE != 0),
    {
        self.flags.bits & FLAG_FREE != 0
    }

    pub fn is_tagged(&self) -> (r: bool)
        ensures
            r == (self.flags.bits & FLAG_TAGGED != 0),
    {
        self.flags.bits & FLAG_TAGGED != 0
    }
}

/// One scope: its parent, its name-to-record bindings, and strictness.
#[derive(Debug)]
pub struct ScopeInfo {
    pub parent: Option<usize>,
    pub map: Vec<(u64, u64)>,
    pub is_strict: bool,
}

/// Mathematical model of a scope.
#[verifier::ext_equal]
pub struct ScopeModel {
    pub parent: Option<usize>,
    pub map: Seq<(u64, u64)>,
    pub is_strict: bool,
}

impl View for ScopeInfo {
    type V = ScopeModel;

    open spec fn view(&self) -> ScopeModel {
        ScopeModel { parent: self.parent, map: self.map@, is_strict: self.is_strict }
    }
}

/// The value bound to `key` in one scope's map: the first pair with that
/// key, if any.
pub open spec fn scope_binding(map: Seq<(u64, u64)>, key: u64) -> Option<u64>
    decreases map.len(),
{
    if map.len() == 0 {
        None
    } else if map[0].0 == key {
        Some(map[0].1)
    } else {
        scope_binding(map.drop_first(), key)
    }
}

/// Resolution through the scope chain, starting at scope `id`: the nearest
/// binding decides; the sentinels mean "known absent".
pub open spec fn resolve(scopes: Seq<ScopeModel>, id: int, key: u64) -> Option<u64>
    decreases id,
{
    if 0 <= id < scopes.len() {
        match scope_binding(scopes[id].map, key) {
            Some(value) => if value == TOMBSTONE || value == UNDEFINED {
                None
            } else {
                Some(value)
            },
            None => match scopes[id].parent {
                Some(parent) => if parent < id {
                    resolve(scopes, parent as int, key)
                } else {
                    None
                },
                None => None,
            },
        }
    } else {
        None
    }
}

/// Scopes only ever point to earlier-created parents.
pub open spec fn scopes_wf(scopes: Seq<ScopeModel>) -> bool {
    forall|i: int|
        0 <= i < scopes.len() ==> match (#[trigger] scopes[i]).parent {
            Some(p) => p < i,
            None => true,
        }
}

/// The arena of variable records.
#[derive(Debug)]
pub struct VariableInfoDB {
    pub map: Vec<VariableInfo>,
}

/// The arena of tag records.
#[derive(Debug)]
pub struct TagInfoDB {
    pub map: Vec<TagInfo>,
}

/// All three arenas together: scopes, variable records and tag records.
#[derive(Debug)]
pub struct ScopeInfoDB {
    pub map: Vec<ScopeInfo>,
    pub variable_info_db: VariableInfoDB,
    pub tag_info_db: TagInfoDB,
}

impl ScopeInfoDB {
    /// The model of the scope arena.
    pub open spec fn scopes(&self) -> Seq<ScopeModel> {
        Seq::new(self.map@.len(), |i: int| self.map@[i]@)
    }

    pub fn new() -> (r: ScopeInfoDB)
        ensures
            r.scopes() == Seq::<ScopeModel>::empty(),
            r.variable_info_db.map@ == Seq::<VariableInfo>::empty(),
            r.tag_info_db.map@ == Seq::<TagInfo>::empty(),
    {
        let r = ScopeInfoDB {
            map: Vec::new(),
            variable_info_db: VariableInfoDB { map: Vec::new() },
            tag_info_db: TagInfoDB { map: Vec::new() },
        };
        proof {
            assert(r.scopes() =~= Seq::<ScopeModel>::empty());
        }
        r
    }

    fn create_scope(&mut self, parent: Option<usize>) -> (r: usize)
        requires
            match parent {
                Some(p) => p < old(self).scopes().len(),
                None => true,
            },
        ensures
            r == old(self).scopes().len(),
            final(self).scopes() == old(self).scopes().push(
                ScopeModel {
                    parent,
                    map: Seq::empty(),
                    is_strict: match parent {
                        Some(p) => old(self).scopes()[p as int].is_strict,
                        None => false,
                    },
                },
            ),
            final(self).variable_info_db.map@ == old(self).variable_info_db.map@,
            final(self).tag_info_db.map@ == old(self).tag_info_db.map@,
    {
        let is_strict = match parent {
            Some(p) => self.expect_get_scope(p).is_strict,
            None => false,
        };
        let id = self.map.len();
        self.map.push(ScopeInfo { parent, map: Vec::new(), is_strict });
        proof {
            assert(self.scopes() =~~= old(self).scopes().push(
                ScopeModel {
                    parent,
                    map: Seq::empty(),
                    is_strict: match parent {
                        Some(p) => old(self).scopes()[p as int].is_strict,
                        None => false,
                    },
                },
            ));
        }
        id
    }

    /// Create a root scope.
    pub fn create(&mut self) -> (r: usize)
        ensures
            r == old(self).scopes().len(),
            final(self).scopes() == old(self).scopes().push(
                ScopeModel { parent: None, map: Seq::empty(), is_strict: false },
            ),
            final(self).variable_info_db.map@ == old(self).variable_info_db.map@,
            final(self).tag_info_db.map@ == old(self).tag_info_db.map@,
    {
        self.create_scope(None)
    }

    /// Create a child scope, inheriting the parent's strictness.
    pub fn create_child(&mut self, parent: usize) -> (r: usize)
        requires
            parent < old(self).scopes().len(),
        ensures
            r == old(self).scopes().len(),
            final(self).scopes() == old(self).scopes().push(
                ScopeModel {
                    parent: Some(parent),
                    map: Seq::empty(),
                    is_strict: old(self).scopes()[parent as int].is_strict,
                },
            ),
            final(self).variable_info_db.map@ == old(self).variable_info_db.map@,
            final(self).tag_info_db.map@ == old(self).tag_info_db.map@,
    {
        self.create_scope(Some(parent))
    }

    /// The scope addressed by `id`. Looking up a key the arena does not hold
    /// is an internal-consistency violation upstream, so it is ruled out
    /// here rather than handled.
    pub fn expect_get_scope(&self, id: usize) -> (r: &ScopeInfo)
        requires
            id < self.scopes().len(),
        ensures
            r@ == self.scopes()[id as int],
    {
        &self.map[id]
    }

    /// The variable record addressed by `id`.
    pub fn expect_get_variable(&self, id: u64) -> (r: &VariableInfo)
        requires
            id < self.variable_info_db.map@.len(),
        ensures
            *r == self.variable_info_db.map@[id as int],
    {
        let n = self.variable_info_db.map.len();
        proof {
            assert(id < n);
        }
        &self.variable_info_db.map[id as usize]
    }

    /// The tag record addressed by `id`.
    pub fn expect_get_tag_info(&self, id: u64) -> (r: &TagInfo)
        requires
            id < self.tag_info_db.map@.len(),
        ensures
            *r == self.tag_info_db.map@[id as int],
    {
        let n = self.tag_info_db.map.len();
        proof {
            assert(id < n);
        }
        &self.tag_info_db.map[id as usize]
    }

    /// Bind `key` to `variable_info_id` in scope `id`, shadowing an earlier
    /// binding of the same key.
    pub fn set(&mut self, id: usize, key: u64, variable_info_id: u64)
        requires
            id < old(self).scopes().len(),
        ensures
            final(self).scopes().len() == old(self).scopes().len(),
            forall|i: int|
                0 <= i < old(self).scopes().len() && i != id ==> final(self).scopes()[i] == old(
                    self,
                ).scopes()[i],
            final(self).scopes()[id as int].parent == old(self).scopes()[id as int].parent,
            final(self).scopes()[id as int].is_strict == old(self).scopes()[id as int].is_strict,
            scope_binding(final(self).scopes()[id as int].map, key) == Some(variable_info_id),
            forall|key2: u64|
                key2 != key ==> scope_binding(final(self).scopes()[id as int].map, key2)
                    == scope_binding(old(self).scopes()[id as int].map, key2),
            final(self).variable_info_db.map@ == old(self).variable_info_db.map@,
            final(self).tag_info_db.map@ == old(self).tag_info_db.map@,
    {
        let ghost before = self.scopes()[id as int].map;
        self.map[id].map.insert(0, (key, variable_info_id));
        proof {
            assert(self.scopes()[id as int].map =~= seq![(key, variable_info_id)] + before);
            assert forall|i: int|
                0 <= i < old(self).scopes().len() && i != id implies self.scopes()[i] == old(
                self,
            ).scopes()[i] by {}
            let updated = self.scopes()[id as int].map;
            assert(updated[0] == (key, variable_info_id));
            assert forall|key2: u64| key2 != key implies scope_binding(updated, key2)
                == scope_binding(before, key2) by {
                assert(updated.drop_first() =~= before);
            }
        }
    }

    /// Resolve `key` from scope `id` outward. A miss that walked a parent
    /// chain is cached as a tombstone in scope `id`; the cache is
    /// transparent: no resolution, from any scope and for any key, changes
    /// its answer.
    pub fn get(&mut self, id: usize, key: u64) -> (r: Option<u64>)
        requires
            id < old(self).scopes().len(),
            scopes_wf(old(self).scopes()),
        ensures
            r == resolve(old(self).scopes(), id as int, key),
            scopes_wf(final(self).scopes()),
            final(self).scopes().len() == old(self).scopes().len(),
            forall|id2: int, key2: u64|
                0 <= id2 < old(self).scopes().len() ==> resolve(
                    final(self).scopes(),
                    id2,
                    key2,
                ) == resolve(old(self).scopes(), id2, key2),
            final(self).variable_info_db.map@ == old(self).variable_info_db.map@,
            final(self).tag_info_db.map@ == old(self).tag_info_db.map@,
    {
        let top = lookup_in_scope(&self.map[id].map, key);
        match top {
            Some(top_value) => {
                if top_value == TOMBSTONE || top_value == UNDEFINED {
                    None
                } else {
                    Some(top_value)
                }
            },
            None => {
                match self.map[id].parent {
                    Some(parent_start) => {
                        let ghost scopes0 = self.scopes();
                        let mut current = parent_start;
                        let mut running = true;
                        let mut found: Option<u64> = None;
                        proof {
                            assert(resolve(scopes0, id as int, key) == resolve(
                                scopes0,
                                parent_start as int,
                                key,
                            ));
                        }
                        while running
                            invariant
                                scopes_wf(scopes0),
                                self.scopes() == scopes0,
                                running ==> current < scopes0.len(),
                                running ==> resolve(scopes0, id as int, key) == resolve(
                                    scopes0,
                                    current as int,
                                    key,
                                ),
                                !running ==> found == resolve(scopes0, id as int, key),
                            decreases (if running {
                                current + 1
                            } else {
                                0
                            }),
                        {
                            let binding = lookup_in_scope(&self.map[current].map, key);
                            match binding {
                                Some(value) => {
                                    if value == TOMBSTONE || value == UNDEFINED {
                                        found = None;
                                    } else {
                                        found = Some(value);
                                    }
                                    running = false;
                                },
                                None => {
                                    match self.map[current].parent {
                                        Some(next) => {
                                            proof {
                                                assert(scopes0[current as int].parent == Some(
                                                    next,
                                                ));
                                                assert(next < current);
                                            }
                                            current = next;
                                        },
                                        None => {
                                            found = None;
                                            running = false;
                                        },
                                    }
                                },
                            }
                        }
                        if found.is_none() {
                            // cache the miss: resolution through this scope
                            // already answers `None` for `key`, so the
                            // tombstone changes no resolution
                            let ghost before = self.scopes();
                            self.map[id].map.insert(0, (key, TOMBSTONE));
                            proof {
                                let after = self.scopes();
                                assert(after[id as int].map =~= seq![(key, TOMBSTONE)]
                                    + before[id as int].map);
                                assert(after.len() == before.len());
                                assert(forall|i: int|
                                    0 <= i < before.len() && i != id ==> after[i] == before[i]);
                                assert(after[id as int].parent == before[id as int].parent);
                                assert(scopes_wf(after));
                                assert(scope_binding(after[id as int].map, key) == Some(
                                    TOMBSTONE,
                                ));
                                assert forall|key2: u64| key2 != key implies scope_binding(
                                    after[id as int].map,
                                    key2,
                                ) == scope_binding(before[id as int].map, key2) by {
                                    assert(after[id as int].map.drop_first()
                                        =~= before[id as int].map);
                                }
                                lemma_tombstone_transparent(before, after, id as int, key);
                            }
                        }
                        found
                    },
                    None => None,
                }
            },
        }
    }

    /// Unbind `key` in scope `id`: scopes with a parent record a tombstone
    /// so the chain is not consulted again; root scopes drop the binding.
    pub fn delete(&mut self, id: usize, key: u64)
        requires
            id < old(self).scopes().len(),
        ensures
            final(self).scopes().len() == old(self).scopes().len(),
            forall|i: int|
                0 <= i < old(self).scopes().len() && i != id ==> final(self).scopes()[i] == old(
                    self,
                ).scopes()[i],
            final(self).scopes()[id as int].parent == old(self).scopes()[id as int].parent,
            old(self).scopes()[id as int].parent is Some ==> scope_binding(
                final(self).scopes()[id as int].map,
                key,
            ) == Some(TOMBSTONE),
            old(self).scopes()[id as int].parent is None ==> scope_binding(
                final(self).scopes()[id as int].map,
                key,
            ) == None::<u64>,
            forall|key2: u64|
                key2 != key ==> scope_binding(final(self).scopes()[id as int].map, key2)
                    == scope_binding(old(self).scopes()[id as int].map, key2),
    {
        let ghost before = self.scopes()[id as int].map;
        let has_parent = self.map[id].parent.is_some();
        if has_parent {
            self.map[id].map.insert(0, (key, TOMBSTONE));
            proof {
                assert(self.scopes()[id as int].map =~= seq![(key, TOMBSTONE)] + before);
                assert forall|key2: u64| key2 != key implies scope_binding(
                    self.scopes()[id as int].map,
                    key2,
                ) == scope_binding(before, key2) by {
                    assert(self.scopes()[id as int].map.drop_first() =~= before);
                }
            }
        } else {
            let filtered = remove_key(&self.map[id].map, key);
            self.map[id].map = filtered;
            proof {
                lemma_binding_after_remove(before, key);
                assert forall|key2: u64| key2 != key implies scope_binding(
                    self.scopes()[id as int].map,
                    key2,
                ) == scope_binding(before, key2) by {
                    lemma_binding_other_after_remove(before, key, key2);
                }
            }
        }
    }
}

impl ScopeInfo {
    /// The live bindings of this scope: every pair whose record is not the
    /// tombstone sentinel.
    pub fn variables(&self) -> (r: Vec<(u64, u64)>)
        ensures
            r@ == self.map@.filter(|p: (u64, u64)| p.1 != TOMBSTONE),
    {
        let mut out: Vec<(u64, u64)> = Vec::new();
        let mut i: usize = 0;
        proof {
            reveal(Seq::filter);
        }
        while i < self.map.len()
            invariant
                i <= self.map@.len(),
                out@ == self.map@.subrange(0, i as int).filter(|p: (u64, u64)| p.1 != TOMBSTONE),
            decreases self.map@.len() - i,
        {
            let pair = self.map[i];
            if pair.1 != TOMBSTONE {
                out.push(pair);
            }
            proof {
                reveal(Seq::filter);
                let pre = self.map@.subrange(0, i as int);
                let cur = self.map@.subrange(0, i + 1 as int);
                assert(cur.drop_last() =~= pre);
                assert(cur.last() == pair);
            }
            i += 1;
        }
        proof {
            assert(self.map@.subrange(0, self.map@.len() as int) =~= self.map@);
        }
        out
    }
}

/// The first binding for `key` in one scope map.
fn lookup_in_scope(map: &Vec<(u64, u64)>, key: u64) -> (r: Option<u64>)
    ensures
        r == scope_binding(map@, key),
{
    let mut i: usize = 0;
    proof {
        assert(map@.skip(0) =~= map@);
    }
    while i < map.len()
        invariant
            i <= map@.len(),
            forall|j: int| 0 <= j < i ==> map@[j].0 != key,
            scope_binding(map@, key) == scope_binding(map@.skip(i as int), key),
        decreases map@.len() - i,
    {
        let pair = map[i];
        proof {
            assert(map@.skip(i as int)[0] == pair);
            assert(map@.skip(i as int).drop_first() =~= map@.skip(i + 1));
        }
        if pair.0 == key {
            return Some(pair.1);
        }
        i += 1;
    }
    proof {
        assert(map@.skip(map@.len() as int) =~= Seq::<(u64, u64)>::empty());
    }
    None
}


/// The map with every binding of `key` removed, others in order.
fn remove_key(map: &Vec<(u64, u64)>, key: u64) -> (r: Vec<(u64, u64)>)
    ensures
        r@ == map@.filter(|p: (u64, u64)| p.0 != key),
{
    let mut out: Vec<(u64, u64)> = Vec::new();
    let mut i: usize = 0;
    proof {
        reveal(Seq::filter);
    }
    while i < map.len()
        invariant
            i <= map@.len(),
            out@ == map@.subrange(0, i as int).filter(|p: (u64, u64)| p.0 != key),
        decreases map@.len() - i,
    {
        let pair = map[i];
        if pair.0 != key {
            out.push(pair);
        }
        proof {
            reveal(Seq::filter);
            let pre = map@.subrange(0, i as int);
            let cur = map@.subrange(0, i + 1 as int);
            assert(cur.drop_last() =~= pre);
            assert(cur.last() == pair);
        }
        i += 1;
    }
    proof {
        assert(map@.subrange(0, map@.len() as int) =~= map@);
    }
    out
}

/// After removing `key`, the map binds it to nothing.
proof fn lemma_binding_after_remove(map: Seq<(u64, u64)>, key: u64)
    ensures
        scope_binding(map.filter(|p: (u64, u64)| p.0 != key), key) == None::<u64>,
{
    let kept = map.filter(|p: (u64, u64)| p.0 != key);
    lemma_binding_none(kept, key);
}

proof fn lemma_binding_none(kept: Seq<(u64, u64)>, key: u64)
    requires
        forall|j: int| 0 <= j < kept.len() ==> (#[trigger] kept[j]).0 != key,
    ensures
        scope_binding(kept, key) == None::<u64>,
    decreases kept.len(),
{
    if kept.len() > 0 {
        assert(forall|j: int|
            0 <= j < kept.drop_first().len() ==> kept.drop_first()[j] == kept[j + 1]);
        lemma_binding_none(kept.drop_first(), key);
    }
}

/// Removing one key leaves every other key's binding as it was.
proof fn lemma_binding_other_after_remove(map: Seq<(u64, u64)>, key: u64, key2: u64)
    requires
        key2 != key,
    ensures
        scope_binding(map.filter(|p: (u64, u64)| p.0 != key), key2) == scope_binding(map, key2),
    decreases map.len(),
{
    reveal(Seq::filter);
    if map.len() > 0 {
        lemma_binding_other_after_remove(map.drop_last(), key, key2);
        let kept = map.filter(|p: (u64, u64)| p.0 != key);
        let kept_head = map.drop_last().filter(|p: (u64, u64)| p.0 != key);
        assert(map =~= map.drop_last().push(map.last()));
        lemma_binding_snoc(map.drop_last(), map.last(), key2);
        assert(scope_binding(map, key2) == scope_binding(map.drop_last().push(map.last()), key2));
        if map.last().0 != key {
            assert(kept == kept_head.push(map.last()));
            lemma_binding_snoc(kept_head, map.last(), key2);
        } else {
            assert(kept == kept_head);
        }
    }
}

/// A binding looked up in `s.push(p)`: the earlier bindings win; `p` only
/// answers when nothing earlier does.
proof fn lemma_binding_snoc(s: Seq<(u64, u64)>, p: (u64, u64), key: u64)
    ensures
        scope_binding(s.push(p), key) == match scope_binding(s, key) {
            Some(v) => Some(v),
            None => if p.0 == key {
                Some(p.1)
            } else {
                None
            },
        },
    decreases s.len(),
{
    if s.len() == 0 {
        assert(s.push(p)[0] == p);
        assert(s.push(p).drop_first() =~= Seq::<(u64, u64)>::empty());
        assert(scope_binding(Seq::<(u64, u64)>::empty(), key) == None::<u64>);
        assert(scope_binding(s.push(p).drop_first(), key) == None::<u64>);
        if p.0 == key {
            assert(scope_binding(s.push(p), key) == Some(p.1));
        } else {
            assert(scope_binding(s.push(p), key) == None::<u64>);
        }
    } else {
        assert(s.push(p)[0] == s[0]);
        assert(s.push(p).drop_first() =~= s.drop_first().push(p));
        lemma_binding_snoc(s.drop_first(), p, key);
        assert(scope_binding(s.push(p).drop_first(), key) == scope_binding(
            s.drop_first().push(p),
            key,
        ));
    }
}

/// Caching a negative lookup is invisible: when resolution from `id` through
/// its parents already answers `None` for `key`, recording a tombstone for
/// `key` in `id` changes no resolution at all.
proof fn lemma_tombstone_transparent(
    before: Seq<ScopeModel>,
    after: Seq<ScopeModel>,
    id: int,
    key: u64,
)
    requires
        scopes_wf(before),
        before.len() == after.len(),
        0 <= id < before.len(),
        forall|i: int| 0 <= i < before.len() && i != id ==> after[i] == before[i],
        after[id].parent == before[id].parent,
        resolve(before, id, key) == None::<u64>,
        scope_binding(after[id].map, key) == Some(TOMBSTONE),
        forall|key2: u64|
            key2 != key ==> scope_binding(after[id].map, key2) == scope_binding(
                before[id].map,
                key2,
            ),
    ensures
        forall|id2: int, key2: u64|
            0 <= id2 < before.len() ==> resolve(after, id2, key2) == resolve(before, id2, key2),
{
    assert forall|id2: int, key2: u64| 0 <= id2 < before.len() implies resolve(after, id2, key2)
        == resolve(before, id2, key2) by {
        lemma_tombstone_transparent_one(before, after, id, key, id2, key2);
    }
}

proof fn lemma_tombstone_transparent_one(
    before: Seq<ScopeModel>,
    after: Seq<ScopeModel>,
    id: int,
    key: u64,
    id2: int,
    key2: u64,
)
    requires
        scopes_wf(before),
        before.len() == after.len(),
        0 <= id < before.len(),
        0 <= id2 < before.len(),
        forall|i: int| 0 <= i < before.len() && i != id ==> after[i] == before[i],
        after[id].parent == before[id].parent,
        resolve(before, id, key) == None::<u64>,
        scope_binding(after[id].map, key) == Some(TOMBSTONE),
        forall|key2x: u64|
            key2x != key ==> scope_binding(after[id].map, key2x) == scope_binding(
                before[id].map,
                key2x,
            ),
    ensures
        resolve(after, id2, key2) == resolve(before, id2, key2),
    decreases id2,
{
    if id2 == id {
        if key2 == key {
            // the tombstone answers `None`; resolution already answered
            // `None` through the chain
        } else {
            match scope_binding(before[id2].map, key2) {
                Some(_) => {},
                None => {
                    match before[id2].parent {
                        Some(p) => {
                            lemma_tombstone_transparent_one(
                                before,
                                after,
                                id,
                                key,
                                p as int,
                                key2,
                            );
                        },
                        None => {},
                    }
                },
            }
        }
    } else {
        assert(after[id2] == before[id2]);
        match scope_binding(before[id2].map, key2) {
            Some(_) => {},
            None => {
                match before[id2].parent {
                    Some(p) => {
                        lemma_tombstone_transparent_one(before, after, id, key, p as int, key2);
                    },
                    None => {},
                }
            },
        }
    }
}

impl Default for ScopeInfoDB {
    /// An empty database.
    fn default() -> (r: ScopeInfoDB)
        ensures
            r.scopes() == Seq::<ScopeModel>::empty(),
            r.variable_info_db.map@ == Seq::<VariableInfo>::empty(),
            r.tag_info_db.map@ == Seq::<TagInfo>::empty(),
    {
        ScopeInfoDB::new()
    }
}

impl VariableInfo {
    /// Insert a fresh variable record into the arena and return its id. Ids
    /// stay clear of the two sentinels.
    pub fn create(
        definitions_db: &mut ScopeInfoDB,
        declared_scope: usize,
        name: Option<u64>,
        flags: VariableInfoFlags,
        tag_info: Option<u64>,
    ) -> (r: u64)
        requires
            old(definitions_db).variable_info_db.map@.len() < UNDEFINED,
        ensures
            r == old(definitions_db).variable_info_db.map@.len(),
            final(definitions_db).variable_info_db.map@ == old(
                definitions_db,
            ).variable_info_db.map@.push(
                VariableInfo { id: r, declared_scope, name, flags, tag_info },
            ),
            final(definitions_db).scopes() == old(definitions_db).scopes(),
            final(definitions_db).tag_info_db.map@ == old(definitions_db).tag_info_db.map@,
    {
        let id = definitions_db.variable_info_db.map.len() as u64;
        definitions_db.variable_info_db.map.push(
            VariableInfo { id, declared_scope, name, flags, tag_info },
        );
        proof {
            assert(definitions_db.scopes() =~~= old(definitions_db).scopes());
        }
        id
    }
}

impl TagInfo {
    /// Insert a fresh tag record into the arena and return its id.
    pub fn create(definitions_db: &mut ScopeInfoDB, tag: u64, next: Option<u64>) -> (r: u64)
        requires
            old(definitions_db).tag_info_db.map@.len() < UNDEFINED,
        ensures
            r == old(definitions_db).tag_info_db.map@.len(),
            final(definitions_db).tag_info_db.map@ == old(definitions_db).tag_info_db.map@.push(
                TagInfo { tag, next },
            ),
            final(definitions_db).scopes() == old(definitions_db).scopes(),
            final(definitions_db).variable_info_db.map@ == old(
                definitions_db,
            ).variable_info_db.map@,
    {
        let id = definitions_db.tag_info_db.map.len() as u64;
        definitions_db.tag_info_db.map.push(TagInfo { tag, next });
        proof {
            assert(definitions_db.scopes() =~~= old(definitions_db).scopes());
        }
        id
    }
}

} // verus!
