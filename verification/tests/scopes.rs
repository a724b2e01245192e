use ssa_gen::item_scope::{
    CrateId, Definition, DefinitionId, FuncId, Ident, ItemScope, LocalModuleId, ModuleDefId,
    ModuleId, NodeInterner, PerNs, Span, StmtId, StructId, Visibility,
};
use ssa_gen::package::{CrateType, Dependency, Package};

fn ident(name: &str, start: u32) -> Ident {
    Ident { name: name.to_string(), span: Span { start, end: start + name.len() as u32 } }
}

fn module(local: usize) -> ModuleId {
    ModuleId { krate: CrateId(0), local_id: LocalModuleId(local) }
}

#[test]
fn a_name_is_defined_once_in_each_namespace() {
    let mut scope = ItemScope::default();
    assert!(scope.define_module_def(ident("foo", 0), module(1)).is_ok());
    let (old, new) = scope.define_struct_def(ident("foo", 10), StructId(module(2))).unwrap_err();
    assert_eq!((old.name.as_str(), old.span.start), ("foo", 0));
    assert_eq!((new.name.as_str(), new.span.start), ("foo", 10));
    assert!(scope.define_global(ident("foo", 20), StmtId(3)).is_ok());
    let (old, new) = scope.define_global(ident("foo", 30), StmtId(4)).unwrap_err();
    assert_eq!((old.span.start, new.span.start), (20, 30));
    assert_eq!(
        scope.definitions(),
        vec![ModuleDefId::ModuleId(module(1)), ModuleDefId::GlobalId(StmtId(3))]
    );
    assert_eq!(scope.types().len(), 1);
    assert_eq!(scope.values().len(), 1);
    assert_eq!(scope.types()[0].item, ModuleDefId::ModuleId(module(1)));
    assert_eq!(scope.values()[0].visibility, Visibility::Public);
}

#[test]
fn add_item_to_namespace_does_not_list_a_definition() {
    let mut scope = ItemScope::new();
    assert!(scope.add_item_to_namespace(ident("a", 0), ModuleDefId::TypeId(StructId(module(0)))).is_ok());
    assert!(scope.add_item_to_namespace(ident("a", 5), ModuleDefId::ModuleId(module(1))).is_err());
    assert!(scope.definitions().is_empty());
    assert!(scope.add_definition(ident("b", 9), ModuleDefId::VariableId(DefinitionId(0))).is_ok());
    assert_eq!(scope.definitions(), vec![ModuleDefId::VariableId(DefinitionId(0))]);
}

#[test]
fn names_are_found_in_both_namespaces() {
    let mut scope = ItemScope::new();
    scope.define_module_def(ident("m", 0), module(7)).unwrap();
    scope.define_struct_def(ident("S", 0), StructId(module(8))).unwrap();
    scope.define_global(ident("m", 0), StmtId(2)).unwrap();
    assert_eq!(scope.find_module_with_name(&ident("m", 99)), Some(&module(7)));
    assert_eq!(scope.find_module_with_name(&ident("S", 0)), None);
    assert_eq!(scope.find_module_with_name(&ident("x", 0)), None);
    assert_eq!(
        scope.find_name(&ident("m", 1)),
        PerNs {
            types: Some((ModuleDefId::ModuleId(module(7)), Visibility::Public)),
            values: Some((ModuleDefId::GlobalId(StmtId(2)), Visibility::Public)),
        }
    );
    assert_eq!(
        scope.find_name(&ident("S", 1)),
        PerNs { types: Some((ModuleDefId::TypeId(StructId(module(8))), Visibility::Public)), values: None }
    );
    assert_eq!(scope.find_name(&ident("nothing", 1)), PerNs { types: None, values: None });
}

#[test]
fn functions_are_found_through_the_interner() {
    let mut interner = NodeInterner::new();
    let mut scope = ItemScope::new();
    scope.define_func_def(ident("f", 0), FuncId(11), &mut interner).unwrap();
    scope.define_func_def(ident("g", 0), FuncId(12), &mut interner).unwrap();
    scope.define_global(ident("c", 0), StmtId(0)).unwrap();
    assert_eq!(scope.find_func_with_name(&ident("f", 3), &interner), Some(FuncId(11)));
    assert_eq!(scope.find_func_with_name(&ident("g", 3), &interner), Some(FuncId(12)));
    assert_eq!(scope.find_func_with_name(&ident("c", 3), &interner), None);
    assert_eq!(scope.find_func_with_name(&ident("h", 3), &interner), None);
    assert!(scope.define_func_def(ident("f", 8), FuncId(13), &mut interner).is_err());
    assert_eq!(interner.definitions.len(), 3);
    assert_eq!(interner.definition(DefinitionId(2)).definition, Definition::Function(FuncId(13)));
    assert_eq!(interner.definition(DefinitionId(0)).name, "f");
    assert!(!interner.definition(DefinitionId(0)).mutable);
    assert_eq!(scope.find_func_with_name(&ident("f", 3), &interner), Some(FuncId(11)));
    interner.definitions[1].definition = Definition::Local;
    assert_eq!(scope.find_func_with_name(&ident("g", 3), &interner), None);
}

fn package(crate_type: CrateType) -> Package {
    Package {
        root_dir: vec!["home".to_string(), "project".to_string()],
        crate_type,
        entry_path: vec!["home".to_string(), "project".to_string(), "src".to_string()],
        name: "project".to_string(),
        dependencies: Vec::new(),
    }
}

#[test]
fn input_files_lie_in_the_root_directory() {
    let package = package(CrateType::Binary);
    assert_eq!(package.prover_input_path(), vec!["home", "project", "Prover.toml"]);
    assert_eq!(package.verifier_input_path(), vec!["home", "project", "Verifier.toml"]);
    let rootless = Package { root_dir: Vec::new(), ..package };
    assert_eq!(rootless.prover_input_path(), vec!["Prover.toml"]);
}

#[test]
fn dependencies_know_their_package() {
    let library = Dependency::Local { package: package(CrateType::Library) };
    let mut binary = package(CrateType::Binary);
    binary.name = "tool".to_string();
    let binary = Dependency::Remote { package: binary };
    assert!(!library.is_binary_crate());
    assert!(binary.is_binary_crate());
    assert_eq!(library.package_name(), "project");
    assert_eq!(binary.package_name(), "tool");
}

#[test]
fn crate_types_are_written_short() {
    assert_eq!(CrateType::Library.name(), "lib");
    assert_eq!(CrateType::Binary.name(), "bin");
}

#[test]
fn packages_are_cloned_with_their_dependencies() {
    let mut library = package(CrateType::Library);
    library.name = "library".to_string();
    let mut root = package(CrateType::Binary);
    root.dependencies.push(("lib".to_string(), Dependency::Local { package: library }));
    let copy = root.clone();
    assert_eq!(copy.name, "project");
    assert_eq!(copy.crate_type, CrateType::Binary);
    assert_eq!(copy.root_dir, root.root_dir);
    assert_eq!(copy.entry_path, root.entry_path);
    assert_eq!(copy.dependencies.len(), 1);
    assert_eq!(copy.dependencies[0].0, "lib");
    let dependency = copy.dependencies[0].1.clone();
    assert_eq!(dependency.package_name(), "library");
    assert!(!dependency.is_binary_crate());
    assert!(matches!(dependency, Dependency::Local { .. }));
}
