use bundler_passes::scope::{ScopeInfoDB, VariableInfo, VariableInfoFlags, FLAG_FREE, TOMBSTONE};

#[test]
fn lookup_walks_the_scope_chain() {
    let mut db = ScopeInfoDB::new();
    let root = db.create();
    let child = db.create_child(root);
    db.set(root, 11, 0);
    assert_eq!(db.get(child, 11), Some(0));
    assert_eq!(db.get(root, 11), Some(0));
    assert_eq!(db.get(child, 12), None);
}

#[test]
fn nearer_binding_shadows_outer_one() {
    let mut db = ScopeInfoDB::new();
    let root = db.create();
    let child = db.create_child(root);
    db.set(root, 11, 0);
    db.set(child, 11, 1);
    assert_eq!(db.get(child, 11), Some(1));
    assert_eq!(db.get(root, 11), Some(0));
}

#[test]
fn negative_lookup_is_cached_transparently() {
    let mut db = ScopeInfoDB::new();
    let root = db.create();
    let child = db.create_child(root);
    // a miss through the parent chain records a tombstone in `child`
    assert_eq!(db.get(child, 11), None);
    // the cached miss answers the same
    assert_eq!(db.get(child, 11), None);
    // and resolutions from other scopes are unchanged
    assert_eq!(db.get(root, 11), None);
}

#[test]
fn delete_in_child_records_a_tombstone() {
    let mut db = ScopeInfoDB::new();
    let root = db.create();
    let child = db.create_child(root);
    db.set(root, 11, 0);
    db.set(child, 11, 1);
    db.delete(child, 11);
    // the tombstone hides the outer binding too
    assert_eq!(db.get(child, 11), None);
    assert_eq!(db.get(root, 11), Some(0));
}

#[test]
fn delete_in_root_drops_the_binding() {
    let mut db = ScopeInfoDB::new();
    let root = db.create();
    db.set(root, 11, 0);
    db.delete(root, 11);
    assert_eq!(db.get(root, 11), None);
}

#[test]
fn sentinel_bindings_resolve_to_nothing() {
    let mut db = ScopeInfoDB::new();
    let root = db.create();
    db.set(root, 11, TOMBSTONE);
    assert_eq!(db.get(root, 11), None);
}

#[test]
fn variable_flags() {
    let v = VariableInfo {
        id: 0,
        declared_scope: 0,
        name: Some(11),
        flags: VariableInfoFlags { bits: FLAG_FREE },
        tag_info: None,
    };
    assert!(v.is_free());
    assert!(!v.is_tagged());
    assert_eq!(v.id(), 0);
}

#[test]
fn child_inherits_strictness() {
    let mut db = ScopeInfoDB::new();
    let root = db.create();
    db.map[root].is_strict = true;
    let child = db.create_child(root);
    assert!(db.expect_get_scope(child).is_strict);
}
