use module_lang::{ModuleId, ResolveError, Symbol};

#[test]
fn test_unknown_module_display_names_the_id() {
    let err = ResolveError::UnknownModule(ModuleId::from_index(4));
    assert!(err.to_string().contains('4'), "{err:?}");
}

#[test]
fn test_duplicate_display_names_module_and_symbol() {
    let err = ResolveError::DuplicateName {
        module: ModuleId::from_index(2),
        name: Symbol::from_u32(7).expect("nonzero"),
    };
    let text = err.to_string();
    assert!(text.contains('2'), "{text}");
    assert!(text.contains('7'), "{text}");
}

#[test]
fn test_error_is_clonable_and_equatable() {
    let a = ResolveError::Unresolved {
        module: ModuleId::from_index(1),
        name: Symbol::from_u32(1).expect("nonzero"),
    };
    let b = a.clone();
    assert_eq!(a, b);
}

#[test]
fn error_texts_are_exact() {
    let sym = Symbol::from_u32(1234).expect("nonzero");
    let m = ModuleId::from_index(0);
    assert_eq!(
        ResolveError::UnknownModule(ModuleId::from_index(4)).to_string(),
        "module id 4 was not minted by this graph"
    );
    assert_eq!(
        ResolveError::DuplicateName { module: ModuleId::from_index(10), name: sym }.to_string(),
        "name (symbol 1234) is already declared in module 10"
    );
    assert_eq!(
        ResolveError::Unresolved { module: m, name: sym }.to_string(),
        "no name (symbol 1234) is declared in module 0"
    );
    assert_eq!(
        ResolveError::Private { module: ModuleId::from_index(99), name: sym }.to_string(),
        "name (symbol 1234) in module 99 is private and cannot be imported"
    );
    assert_eq!(
        ResolveError::ImportCycle { module: ModuleId::from_index(4_294_967_295), name: sym }
            .to_string(),
        "import of name (symbol 1234) forms a cycle at module 4294967295"
    );
}

#[test]
fn error_variants_differ() {
    let sym = Symbol::from_u32(3).expect("nonzero");
    let m = ModuleId::from_index(3);
    assert_ne!(
        ResolveError::Unresolved { module: m, name: sym },
        ResolveError::Private { module: m, name: sym }
    );
    assert_ne!(ResolveError::UnknownModule(m), ResolveError::UnknownModule(ModuleId::from_index(2)));
}
