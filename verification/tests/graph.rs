use intern_lang::Interner;
use module_lang::{ModuleGraph, ModuleId, ResolveError, Visibility};
use source_lang::SourceMap;

/// Builds a graph plus the interner and source map its tests share.
fn fixture() -> (ModuleGraph<u32>, Interner, SourceMap) {
    (ModuleGraph::new(), Interner::new(), SourceMap::new())
}

#[test]
fn test_add_module_assigns_sequential_stable_ids() {
    let (mut g, mut n, mut s) = fixture();
    let a = g.add_module(n.intern("a"), s.add("a", "").expect("fits"));
    let b = g.add_module(n.intern("b"), s.add("b", "").expect("fits"));
    assert_eq!(a.to_u32(), 0);
    assert_eq!(b.to_u32(), 1);
    assert_eq!(g.len(), 2);
    // The first id still names the first module after more are added.
    assert_eq!(g.module_name(a), Some(n.intern("a")));
}

#[test]
fn test_define_then_resolve_returns_value() {
    let (mut g, mut n, mut s) = fixture();
    let m = g.add_module(n.intern("m"), s.add("m", "").expect("fits"));
    let x = n.intern("x");
    g.define(m, x, Visibility::Public, 99).expect("unique");
    assert_eq!(g.resolve(m, x), Ok(&99));
}

#[test]
fn test_define_duplicate_in_same_module_is_error() {
    let (mut g, mut n, mut s) = fixture();
    let m = g.add_module(n.intern("m"), s.add("m", "").expect("fits"));
    let x = n.intern("x");
    g.define(m, x, Visibility::Public, 1).expect("first is unique");
    assert_eq!(
        g.define(m, x, Visibility::Public, 2),
        Err(ResolveError::DuplicateName { module: m, name: x }),
    );
}

#[test]
fn test_import_resolves_through_to_definition() {
    let (mut g, mut n, mut s) = fixture();
    let lib = g.add_module(n.intern("lib"), s.add("lib", "").expect("fits"));
    let app = g.add_module(n.intern("app"), s.add("app", "").expect("fits"));
    let item = n.intern("item");
    g.define(lib, item, Visibility::Public, 7).expect("unique");
    g.import(app, lib, item).expect("unique");
    assert_eq!(g.resolve(app, item), Ok(&7));
}

#[test]
fn test_resolve_unknown_name_is_unresolved() {
    let (mut g, mut n, mut s) = fixture();
    let m = g.add_module(n.intern("m"), s.add("m", "").expect("fits"));
    let gone = n.intern("gone");
    assert_eq!(
        g.resolve(m, gone),
        Err(ResolveError::Unresolved { module: m, name: gone }),
    );
}

#[test]
fn test_private_definition_is_local_only() {
    let (mut g, mut n, mut s) = fixture();
    let lib = g.add_module(n.intern("lib"), s.add("lib", "").expect("fits"));
    let app = g.add_module(n.intern("app"), s.add("app", "").expect("fits"));
    let secret = n.intern("secret");
    g.define(lib, secret, Visibility::Private, 5).expect("unique");
    // Visible at home.
    assert_eq!(g.resolve(lib, secret), Ok(&5));
    // Not through an import.
    g.import(app, lib, secret).expect("unique");
    assert_eq!(
        g.resolve(app, secret),
        Err(ResolveError::Private { module: lib, name: secret }),
    );
}

#[test]
fn test_import_cycle_is_reported_not_looped() {
    let (mut g, mut n, mut s) = fixture();
    let a = g.add_module(n.intern("a"), s.add("a", "").expect("fits"));
    let b = g.add_module(n.intern("b"), s.add("b", "").expect("fits"));
    let x = n.intern("x");
    // a imports x from b, b imports x from a: a closed loop with no definition.
    g.import(a, b, x).expect("unique");
    g.import(b, a, x).expect("unique");
    assert!(matches!(g.resolve(a, x), Err(ResolveError::ImportCycle { .. })));
}

#[test]
fn test_self_import_is_a_cycle() {
    let (mut g, mut n, mut s) = fixture();
    let a = g.add_module(n.intern("a"), s.add("a", "").expect("fits"));
    let x = n.intern("x");
    g.import(a, a, x).expect("unique");
    assert!(matches!(g.resolve(a, x), Err(ResolveError::ImportCycle { .. })));
}

#[test]
fn test_unknown_module_id_is_error_not_panic() {
    let (mut g, mut n, mut s) = fixture();
    let real = g.add_module(n.intern("a"), s.add("a", "").expect("fits"));
    // An id from a second, separate graph does not index this one.
    let mut other: ModuleGraph<u32> = ModuleGraph::new();
    let mut s2 = SourceMap::new();
    let foreign = other.add_module(n.intern("z"), s2.add("z", "").expect("fits"));
    let _ = foreign;
    // `real` has index 0; an out-of-range id is rejected.
    let beyond = ModuleId::from_index(g.len() as u32 + 5);
    let x = n.intern("x");
    assert_eq!(g.resolve(beyond, x), Err(ResolveError::UnknownModule(beyond)));
    assert!(g.resolve(real, x).is_err());
}

#[test]
fn test_re_export_chain_resolves_to_origin() {
    let (mut g, mut n, mut s) = fixture();
    let c = g.add_module(n.intern("c"), s.add("c", "").expect("fits"));
    let b = g.add_module(n.intern("b"), s.add("b", "").expect("fits"));
    let a = g.add_module(n.intern("a"), s.add("a", "").expect("fits"));
    let item = n.intern("item");
    g.define(c, item, Visibility::Public, 123).expect("unique");
    g.import(b, c, item).expect("unique"); // b re-exports c::item
    g.import(a, b, item).expect("unique"); // a imports through b
    assert_eq!(g.resolve(a, item), Ok(&123));
}

#[test]
fn empty_graphs_from_every_constructor() {
    let a: ModuleGraph<u32> = ModuleGraph::new();
    let b: ModuleGraph<u32> = ModuleGraph::with_capacity(64);
    let c: ModuleGraph<u32> = ModuleGraph::default();
    for g in [&a, &b, &c] {
        assert!(g.is_empty());
        assert_eq!(g.len(), 0);
        assert_eq!(g.module_name(ModuleId::from_index(0)), None);
        assert_eq!(g.module_source(ModuleId::from_index(0)), None);
    }
}

#[test]
fn module_metadata_is_kept_per_module() {
    let (mut g, mut n, mut s) = fixture();
    let src_a = s.add("a.lang", "").expect("fits");
    let src_b = s.add("b.lang", "").expect("fits");
    let a = g.add_module(n.intern("a"), src_a);
    let b = g.add_module(n.intern("b"), src_b);
    assert!(!g.is_empty());
    assert_eq!(g.module_source(a), Some(src_a));
    assert_eq!(g.module_source(b), Some(src_b));
    assert_eq!(g.module_name(b), Some(n.intern("b")));
    assert_eq!(g.module_name(ModuleId::from_index(2)), None);
    assert_eq!(g.module_source(ModuleId::from_index(2)), None);
}

#[test]
fn define_in_unknown_module_is_error_and_changes_nothing() {
    let (mut g, mut n, mut s) = fixture();
    let m = g.add_module(n.intern("m"), s.add("m", "").expect("fits"));
    let x = n.intern("x");
    let ghost = ModuleId::from_index(1);
    assert_eq!(
        g.define(ghost, x, Visibility::Public, 1),
        Err(ResolveError::UnknownModule(ghost))
    );
    assert_eq!(g.len(), 1);
    assert_eq!(g.resolve(m, x), Err(ResolveError::Unresolved { module: m, name: x }));
}

#[test]
fn import_checks_source_then_target_then_duplicate() {
    let (mut g, mut n, mut s) = fixture();
    let m = g.add_module(n.intern("m"), s.add("m", "").expect("fits"));
    let x = n.intern("x");
    let far = ModuleId::from_index(8);
    let farther = ModuleId::from_index(9);
    assert_eq!(g.import(far, farther, x), Err(ResolveError::UnknownModule(farther)));
    assert_eq!(g.import(far, m, x), Err(ResolveError::UnknownModule(far)));
    assert_eq!(g.import(m, far, x), Err(ResolveError::UnknownModule(far)));
    g.define(m, x, Visibility::Private, 3).expect("unique");
    assert_eq!(g.import(m, m, x), Err(ResolveError::DuplicateName { module: m, name: x }));
    // A definition and an import cannot share a spelling either way round.
    let y = n.intern("y");
    g.import(m, m, y).expect("unique");
    assert_eq!(
        g.define(m, y, Visibility::Public, 4),
        Err(ResolveError::DuplicateName { module: m, name: y })
    );
    assert_eq!(g.resolve(m, x), Ok(&3));
}

#[test]
fn import_before_definition_resolves_once_defined() {
    let (mut g, mut n, mut s) = fixture();
    let app = g.add_module(n.intern("app"), s.add("app", "").expect("fits"));
    let lib = g.add_module(n.intern("lib"), s.add("lib", "").expect("fits"));
    let f = n.intern("f");
    g.import(app, lib, f).expect("unique");
    assert_eq!(g.resolve(app, f), Err(ResolveError::Unresolved { module: lib, name: f }));
    g.define(lib, f, Visibility::Public, 11).expect("unique");
    assert_eq!(g.resolve(app, f), Ok(&11));
}

#[test]
fn cycle_error_names_the_module_the_walk_returned_to() {
    let (mut g, mut n, mut s) = fixture();
    let a = g.add_module(n.intern("a"), s.add("a", "").expect("fits"));
    let b = g.add_module(n.intern("b"), s.add("b", "").expect("fits"));
    let c = g.add_module(n.intern("c"), s.add("c", "").expect("fits"));
    let x = n.intern("x");
    g.import(a, b, x).expect("unique");
    g.import(b, c, x).expect("unique");
    g.import(c, b, x).expect("unique");
    assert_eq!(g.resolve(a, x), Err(ResolveError::ImportCycle { module: b, name: x }));
    assert_eq!(g.resolve(b, x), Err(ResolveError::ImportCycle { module: b, name: x }));
    let y = n.intern("y");
    g.import(a, a, y).expect("unique");
    assert_eq!(g.resolve(a, y), Err(ResolveError::ImportCycle { module: a, name: y }));
}

#[test]
fn private_reached_through_a_chain_names_its_module() {
    let (mut g, mut n, mut s) = fixture();
    let a = g.add_module(n.intern("a"), s.add("a", "").expect("fits"));
    let b = g.add_module(n.intern("b"), s.add("b", "").expect("fits"));
    let c = g.add_module(n.intern("c"), s.add("c", "").expect("fits"));
    let k = n.intern("k");
    g.define(c, k, Visibility::Private, 1).expect("unique");
    g.import(b, c, k).expect("unique");
    g.import(a, b, k).expect("unique");
    assert_eq!(g.resolve(a, k), Err(ResolveError::Private { module: c, name: k }));
    assert_eq!(g.resolve(c, k), Ok(&1));
}

#[test]
fn adding_modules_and_other_names_keeps_resolutions() {
    let (mut g, mut n, mut s) = fixture();
    let a = g.add_module(n.intern("a"), s.add("a", "").expect("fits"));
    let b = g.add_module(n.intern("b"), s.add("b", "").expect("fits"));
    let x = n.intern("x");
    g.define(b, x, Visibility::Public, 5).expect("unique");
    g.import(a, b, x).expect("unique");
    let before = g.resolve(a, x).cloned();
    let c = g.add_module(n.intern("c"), s.add("c", "").expect("fits"));
    let y = n.intern("y");
    g.define(a, y, Visibility::Private, 6).expect("unique");
    g.import(c, a, x).expect("unique");
    assert_eq!(g.resolve(a, x).cloned(), before);
    assert_eq!(g.resolve(a, x), Ok(&5));
    assert_eq!(g.resolve(c, x), Ok(&5));
    assert_eq!(g.module_name(a), Some(n.intern("a")));
}

#[test]
fn cloned_graph_resolves_the_same() {
    let (mut g, mut n, mut s) = fixture();
    let a = g.add_module(n.intern("a"), s.add("a", "").expect("fits"));
    let x = n.intern("x");
    g.define(a, x, Visibility::Public, 42).expect("unique");
    let h = g.clone();
    assert_eq!(h.resolve(a, x), Ok(&42));
    assert_eq!(h.len(), 1);
}

#[test]
fn ids_of_another_graph_are_unknown() {
    let (mut g, mut n, mut s) = fixture();
    let real = g.add_module(n.intern("a"), s.add("a", "").expect("fits"));
    let mut other: ModuleGraph<u32> = ModuleGraph::new();
    let foreign = other.add_module(n.intern("z"), s.add("z", "").expect("fits"));
    assert_eq!(real.to_u32(), foreign.to_u32());
    assert_ne!(real, foreign);
    let x = n.intern("x");
    assert_eq!(
        g.define(foreign, x, Visibility::Public, 1),
        Err(ResolveError::UnknownModule(foreign))
    );
    assert_eq!(g.import(real, foreign, x), Err(ResolveError::UnknownModule(foreign)));
    assert_eq!(g.import(foreign, real, x), Err(ResolveError::UnknownModule(foreign)));
    assert_eq!(g.resolve(foreign, x), Err(ResolveError::UnknownModule(foreign)));
    assert_eq!(g.module_name(foreign), None);
    assert_eq!(g.module_source(foreign), None);
    // Nothing was declared in `g` by the refused calls.
    assert_eq!(g.resolve(real, x), Err(ResolveError::Unresolved { module: real, name: x }));
    // A fabricated id with a real index is unknown too.
    assert_eq!(g.module_name(ModuleId::from_index(0)), None);
    // The id rebuilt from its parts still names the module.
    let rebuilt = ModuleId::from_parts(real.graph_tag(), real.to_u32());
    assert_eq!(g.module_name(rebuilt), Some(n.intern("a")));
}

#[test]
fn each_graph_has_its_own_nonzero_tag() {
    let mut n = Interner::new();
    let mut s = SourceMap::new();
    let mut graphs: Vec<ModuleGraph<u32>> = (0..50).map(|_| ModuleGraph::new()).collect();
    let mut tags = std::collections::HashSet::new();
    for g in graphs.iter_mut() {
        let id = g.add_module(n.intern("m"), s.add("m", "").expect("fits"));
        assert_ne!(id.graph_tag(), 0);
        assert!(tags.insert(id.graph_tag()));
    }
}
