use s1bcr4ft_core::module::{contains_text, matches_folded, Module, ModuleRegistry, ModuleResolver, ResolveError};

fn module(id: &str, name: &str, description: &str, category: &str, deps: &[&str], conflicts: &[&str]) -> Module {
    Module {
        id: id.to_string(),
        name: name.to_string(),
        description: description.to_string(),
        category: category.to_string(),
        version: "1.0.0".to_string(),
        dependencies: deps.iter().map(|d| d.to_string()).collect(),
        conflicts: conflicts.iter().map(|c| c.to_string()).collect(),
        packages: Vec::new(),
        aur_packages: Vec::new(),
        commands: Vec::new(),
        files: Vec::new(),
    }
}

fn ids(list: &[&str]) -> Vec<String> {
    list.iter().map(|s| s.to_string()).collect()
}

fn sample_registry() -> ModuleRegistry {
    let mut registry = ModuleRegistry::new("modules");
    let mut base = module(
        "core/base-system",
        "Base System",
        "Essential Arch Linux packages",
        "core",
        &[],
        &[],
    );
    base.packages = ids(&["base", "linux", "linux-firmware", "sudo"]);
    registry.insert(base);
    let mut rust = module(
        "development/languages/rust",
        "Rust",
        "Rust programming language",
        "development",
        &["core/base-system"],
        &[],
    );
    rust.packages = ids(&["rust", "cargo"]);
    registry.insert(rust);
    let mut go = module(
        "development/languages/go",
        "Go",
        "Go programming language",
        "development",
        &["core/base-system"],
        &[],
    );
    go.packages = ids(&["go"]);
    registry.insert(go);
    let mut sliver = module(
        "red-team/c2-frameworks/sliver-c2",
        "Sliver C2",
        "Cross-platform adversary emulation",
        "red-team",
        &["development/languages/go"],
        &[],
    );
    sliver.aur_packages = ids(&["sliver"]);
    registry.insert(sliver);
    let mut a = module(
        "conflict/module-a",
        "Module A",
        "First conflicting module",
        "conflict",
        &[],
        &["conflict/module-b"],
    );
    a.packages = ids(&["package-a"]);
    registry.insert(a);
    let mut b = module(
        "conflict/module-b",
        "Module B",
        "Second conflicting module",
        "conflict",
        &[],
        &["conflict/module-a"],
    );
    b.packages = ids(&["package-b"]);
    registry.insert(b);
    registry
}

fn circular_registry() -> ModuleRegistry {
    let mut registry = ModuleRegistry::new("modules");
    registry.insert(module("circular/a", "Circular A", "First circular dep", "circular", &["circular/b"], &[]));
    registry.insert(module("circular/b", "Circular B", "Second circular dep", "circular", &["circular/a"], &[]));
    registry
}

fn position(list: &[String], id: &str) -> usize {
    list.iter().position(|m| m == id).unwrap()
}

#[test]
fn test_module_registry() {
    let registry = ModuleRegistry::new("/tmp/modules");
    assert_eq!(registry.list().len(), 0);
    assert_eq!(registry.module_dir(), "/tmp/modules");
}

#[test]
fn test_load_modules_from_directory() {
    let registry = sample_registry();
    let modules = registry.list();
    assert!(!modules.is_empty());
    assert!(registry.get("core/base-system").is_some());
    assert!(registry.get("development/languages/rust").is_some());
    assert!(registry.get("development/languages/go").is_some());
}

#[test]
fn test_get_module_by_id() {
    let registry = sample_registry();
    let module = registry.get("core/base-system").expect("Module not found");
    assert_eq!(module.id, "core/base-system");
    assert_eq!(module.name, "Base System");
    assert_eq!(module.category, "core");
    assert!(module.packages.contains(&"base".to_string()));
    assert!(module.packages.contains(&"linux".to_string()));
}

#[test]
fn test_get_nonexistent_module() {
    let registry = sample_registry();
    assert!(registry.get("nonexistent/module").is_none());
}

#[test]
fn test_search_modules() {
    let registry = sample_registry();
    let results = registry.search("Rust");
    assert!(!results.is_empty());
    let results = registry.search("red-team");
    assert!(!results.is_empty());
    let results = registry.search("programming");
    assert!(!results.is_empty());
}

#[test]
fn search_ignores_case_and_keeps_registry_order() {
    let registry = sample_registry();
    let results = registry.search("PROGRAMMING LANGUAGE");
    let found: Vec<&str> = results.iter().map(|m| m.id.as_str()).collect();
    assert_eq!(found, vec!["development/languages/rust", "development/languages/go"]);
    assert_eq!(registry.search("").len(), 6);
    assert!(registry.search("no such text").is_empty());
}

#[test]
fn contains_text_cases() {
    assert!(contains_text("programming", "gram"));
    assert!(contains_text("abc", ""));
    assert!(contains_text("", ""));
    assert!(!contains_text("ab", "abc"));
    assert!(!contains_text("Rust", "rust"));
    assert!(contains_text("aab", "ab"));
}

#[test]
fn test_resolve_dependencies() {
    let registry = sample_registry();
    let resolver = ModuleResolver::new(&registry);
    let resolved = resolver
        .resolve(&["development/languages/rust".to_string()])
        .expect("Failed to resolve dependencies");
    assert!(resolved.contains(&"core/base-system".to_string()));
    assert!(resolved.contains(&"development/languages/rust".to_string()));
    assert!(position(&resolved, "core/base-system") < position(&resolved, "development/languages/rust"));
}

#[test]
fn test_resolve_multiple_modules() {
    let registry = sample_registry();
    let resolver = ModuleResolver::new(&registry);
    let resolved = resolver
        .resolve(&[
            "development/languages/rust".to_string(),
            "development/languages/go".to_string(),
        ])
        .expect("Failed to resolve dependencies");
    assert!(resolved.contains(&"core/base-system".to_string()));
    assert!(resolved.contains(&"development/languages/rust".to_string()));
    assert!(resolved.contains(&"development/languages/go".to_string()));
    assert_eq!(
        resolved,
        ids(&["core/base-system", "development/languages/rust", "development/languages/go"])
    );
}

#[test]
fn test_resolve_transitive_dependencies() {
    let registry = sample_registry();
    let resolver = ModuleResolver::new(&registry);
    let resolved = resolver
        .resolve(&["red-team/c2-frameworks/sliver-c2".to_string()])
        .expect("Failed to resolve dependencies");
    assert!(resolved.contains(&"core/base-system".to_string()));
    assert!(resolved.contains(&"development/languages/go".to_string()));
    assert!(resolved.contains(&"red-team/c2-frameworks/sliver-c2".to_string()));
    let base_index = position(&resolved, "core/base-system");
    let go_index = position(&resolved, "development/languages/go");
    let sliver_index = position(&resolved, "red-team/c2-frameworks/sliver-c2");
    assert!(base_index < go_index);
    assert!(go_index < sliver_index);
}

#[test]
fn test_complex_dependency_chain() {
    let registry = sample_registry();
    let resolver = ModuleResolver::new(&registry);
    let resolved = resolver
        .resolve(&["red-team/c2-frameworks/sliver-c2".to_string()])
        .expect("Failed to resolve");
    assert_eq!(resolved.len(), 3);
    assert_eq!(resolved[0], "core/base-system");
    assert_eq!(resolved[1], "development/languages/go");
    assert_eq!(resolved[2], "red-team/c2-frameworks/sliver-c2");
}

#[test]
fn three_level_chain_scenario() {
    let mut registry = ModuleRegistry::new("modules");
    registry.insert(module("base-system", "Base", "", "core", &[], &[]));
    registry.insert(module("go", "Go", "", "dev", &["base-system"], &[]));
    registry.insert(module("sliver-c2", "Sliver", "", "red", &["go"], &[]));
    let resolver = ModuleResolver::new(&registry);
    assert_eq!(
        resolver.resolve(&ids(&["sliver-c2"])).unwrap(),
        ids(&["base-system", "go", "sliver-c2"])
    );
}

#[test]
fn test_detect_conflicts() {
    let registry = sample_registry();
    let resolver = ModuleResolver::new(&registry);
    let result = resolver.check_conflicts(&[
        "conflict/module-a".to_string(),
        "conflict/module-b".to_string(),
    ]);
    assert!(result.is_err());
    let error = result.unwrap_err();
    assert!(error.message().contains("Conflict detected"));
}

#[test]
fn one_sided_conflict_is_flagged() {
    let mut registry = ModuleRegistry::new("modules");
    registry.insert(module("module-a", "A", "", "c", &[], &["module-b"]));
    registry.insert(module("module-b", "B", "", "c", &[], &[]));
    let resolver = ModuleResolver::new(&registry);
    match resolver.check_conflicts(&ids(&["module-b", "module-a"])) {
        Err(ResolveError::Conflict { module, conflicts_with }) => {
            assert_eq!(module, "module-a");
            assert_eq!(conflicts_with, "module-b");
        }
        other => panic!("unexpected result {:?}", other),
    }
    assert!(resolver.check_conflicts(&ids(&["module-b"])).is_ok());
    let error = resolver.check_conflicts(&ids(&["module-a", "module-b"])).unwrap_err();
    assert_eq!(error.message(), "Conflict detected: module-a conflicts with module-b");
}

#[test]
fn check_conflicts_reports_unknown_first() {
    let registry = sample_registry();
    let resolver = ModuleResolver::new(&registry);
    match resolver.check_conflicts(&ids(&["conflict/module-a", "conflict/module-b", "missing"])) {
        Err(ResolveError::ModuleNotFound(id)) => assert_eq!(id, "missing"),
        other => panic!("unexpected result {:?}", other),
    }
}

#[test]
fn test_no_conflicts_compatible() {
    let registry = sample_registry();
    let resolver = ModuleResolver::new(&registry);
    let result = resolver.check_conflicts(&[
        "development/languages/rust".to_string(),
        "development/languages/go".to_string(),
    ]);
    assert!(result.is_ok());
}

#[test]
fn test_detect_circular_dependencies() {
    let registry = circular_registry();
    let resolver = ModuleResolver::new(&registry);
    let result = resolver.resolve(&["circular/a".to_string()]);
    assert!(result.is_err());
    let error = result.unwrap_err();
    assert!(error.message().contains("Circular dependency"));
}

#[test]
fn cycles_of_each_length_are_circular() {
    let mut registry = ModuleRegistry::new("modules");
    registry.insert(module("self", "", "", "", &["self"], &[]));
    registry.insert(module("x", "", "", "", &["y"], &[]));
    registry.insert(module("y", "", "", "", &["z"], &[]));
    registry.insert(module("z", "", "", "", &["x"], &[]));
    registry.insert(module("entry", "", "", "", &["y"], &[]));
    let resolver = ModuleResolver::new(&registry);
    match resolver.resolve(&ids(&["self"])) {
        Err(ResolveError::CircularDependency(id)) => assert_eq!(id, "self"),
        other => panic!("unexpected result {:?}", other),
    }
    match resolver.resolve(&ids(&["entry"])) {
        Err(ResolveError::CircularDependency(id)) => assert_eq!(id, "y"),
        other => panic!("unexpected result {:?}", other),
    }
}

#[test]
fn test_empty_registry() {
    let registry = ModuleRegistry::new("modules");
    assert!(registry.list().is_empty());
    let resolver = ModuleResolver::new(&registry);
    assert_eq!(resolver.resolve(&[]).unwrap(), Vec::<String>::new());
}

#[test]
fn test_resolve_nonexistent_module() {
    let registry = sample_registry();
    let resolver = ModuleResolver::new(&registry);
    let result = resolver.resolve(&["nonexistent/module".to_string()]);
    assert!(result.is_err());
    let error = result.unwrap_err();
    assert!(error.message().contains("Module not found"));
}

#[test]
fn test_error_handling_missing_module() {
    let registry = ModuleRegistry::new("modules");
    let resolver = ModuleResolver::new(&registry);
    let result = resolver.resolve(&ids(&["core/base-system"]));
    assert!(result.is_err());
}

#[test]
fn missing_dependency_is_named() {
    let mut registry = ModuleRegistry::new("modules");
    registry.insert(module("needs-ghost", "", "", "", &["ghost"], &[]));
    let resolver = ModuleResolver::new(&registry);
    match resolver.resolve(&ids(&["needs-ghost"])) {
        Err(ResolveError::ModuleNotFound(id)) => assert_eq!(id, "ghost"),
        other => panic!("unexpected result {:?}", other),
    }
}

#[test]
fn test_list_all_modules() {
    let registry = sample_registry();
    let modules = registry.list();
    assert!(modules.len() >= 4);
    for module in &modules {
        assert!(!module.id.is_empty());
        assert!(!module.name.is_empty());
        assert!(!module.version.is_empty());
    }
}

#[test]
fn test_module_with_aur_packages() {
    let registry = sample_registry();
    let module = registry
        .get("red-team/c2-frameworks/sliver-c2")
        .expect("Module not found");
    assert!(!module.aur_packages.is_empty());
    assert!(module.aur_packages.contains(&"sliver".to_string()));
}

#[test]
fn test_resolve_consistency() {
    let registry = sample_registry();
    let resolver = ModuleResolver::new(&registry);
    let first = resolver
        .resolve(&["development/languages/rust".to_string()])
        .unwrap();
    let second = resolver
        .resolve(&["development/languages/rust".to_string()])
        .unwrap();
    assert_eq!(first, second);
}

#[test]
fn resolve_output_has_no_duplicates_and_deps_first() {
    let registry = sample_registry();
    let resolver = ModuleResolver::new(&registry);
    let requested = ids(&[
        "red-team/c2-frameworks/sliver-c2",
        "development/languages/rust",
        "development/languages/go",
        "core/base-system",
    ]);
    let resolved = resolver.resolve(&requested).unwrap();
    assert_eq!(
        resolved,
        ids(&[
            "core/base-system",
            "development/languages/go",
            "red-team/c2-frameworks/sliver-c2",
            "development/languages/rust",
        ])
    );
    for (i, id) in resolved.iter().enumerate() {
        assert_eq!(position(&resolved, id), i);
        for dep in &registry.get(id).unwrap().dependencies {
            assert!(position(&resolved, dep) < i);
        }
    }
}

#[test]
fn insert_replaces_same_id() {
    let mut registry = sample_registry();
    registry.insert(module("core/base-system", "Replaced", "", "core", &[], &[]));
    assert_eq!(registry.list().len(), 6);
    assert_eq!(registry.get("core/base-system").unwrap().name, "Replaced");
}

#[test]
fn long_dependency_chain_resolves() {
    let mut registry = ModuleRegistry::new("modules");
    let n = 3000;
    for i in 0..n {
        let deps: Vec<String> = if i + 1 < n { vec![format!("m{}", i + 1)] } else { Vec::new() };
        let mut m = module(&format!("m{}", i), "x", "", "", &[], &[]);
        m.dependencies = deps;
        registry.insert(m);
    }
    let resolver = ModuleResolver::new(&registry);
    let resolved = resolver.resolve(&ids(&["m0"])).unwrap();
    assert_eq!(resolved.len(), n);
    assert_eq!(resolved[0], format!("m{}", n - 1));
    assert_eq!(resolved[n - 1], "m0");
}

#[test]
fn folded_match_checks_each_field() {
    assert!(matches_folded("rust", "a language", "dev/rust", "lang"));
    assert!(matches_folded("rust", "", "dev/rust", "dev/"));
    assert!(!matches_folded("rust", "a language", "dev/rust", "go"));
    assert!(matches_folded("", "", "", ""));
}

#[test]
fn search_lists_each_module_once() {
    let registry = sample_registry();
    let results = registry.search("o");
    let mut found: Vec<&str> = results.iter().map(|m| m.id.as_str()).collect();
    let total = found.len();
    found.dedup();
    assert_eq!(found.len(), total);
}
