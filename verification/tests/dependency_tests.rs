use bundler_passes::dependency::{
    CommonJsRequireDependency, CommonJsRequireDependencyTemplate, DependencyRange,
    DependencyTemplateType, DependencyType, ExtendedReferencedExport,
};
use bundler_passes::rsc::{
    ClientModuleImport, RscEntryDependency, RscEntryModule, RscEntryModuleFactory,
};

#[test]
fn dependency_range_round_trip() {
    let r = DependencyRange::new(3, 9);
    assert_eq!(r.start, 3);
    assert_eq!(r.end, 9);
    assert_eq!(DependencyRange::from((3, 9)), r);
}

#[test]
fn template_type_is_cjs_require() {
    assert_eq!(
        CommonJsRequireDependencyTemplate::template_type(),
        DependencyTemplateType::Dependency(DependencyType::CjsRequire),
    );
}

#[test]
fn referenced_exports_fall_back_to_exports_object() {
    let dep = CommonJsRequireDependency::new(
        "./a".to_string(),
        DependencyRange::new(0, 4),
        None,
        false,
        None,
        None,
    );
    let refs = dep.get_referenced_exports();
    assert_eq!(refs.len(), 1);
    assert!(matches!(refs[0], ExtendedReferencedExport::Object));
    assert_eq!(dep.request(), "./a");
    assert_eq!(dep.range(), None);
    assert!(!dep.get_optional());
}

#[test]
fn referenced_exports_keep_recorded_paths() {
    let dep = CommonJsRequireDependency::new(
        "./a".to_string(),
        DependencyRange::new(0, 4),
        Some(DependencyRange::new(0, 6)),
        true,
        None,
        Some(vec![vec!["x".to_string(), "y".to_string()]]),
    );
    let refs = dep.get_referenced_exports();
    assert_eq!(refs.len(), 1);
    match &refs[0] {
        ExtendedReferencedExport::Export(e) => {
            assert_eq!(e.name, vec!["x".to_string(), "y".to_string()]);
            assert!(!e.can_mangle);
            assert!(!e.can_inline);
        }
        ExtendedReferencedExport::Object => panic!("expected a recorded export path"),
    }
}

#[test]
fn rsc_entry_dependency_identifier() {
    let dep = RscEntryDependency::new("App".to_string(), Vec::new());
    assert_eq!(dep.resource_identifier, "rsc-client-entry-App");
    assert_eq!(dep.request(), "rsc-client-entry-App");
}

#[test]
fn rsc_entry_module_identifier_joins_requests() {
    let imports = vec![
        ClientModuleImport { request: "./a".to_string(), ids: vec!["x".to_string()] },
        ClientModuleImport { request: "./b".to_string(), ids: Vec::new() },
    ];
    let module = RscEntryModule::new("Home".to_string(), imports);
    assert_eq!(module.identifier(), "rsc entry (Home) [./a, ./b]");
    assert_eq!(module.lib_ident(), "rspack/rsc-entry?name=Home");
    assert_eq!(module.readable_identifier(), "rsc client entry Home");
}

#[test]
fn rsc_entry_module_build_yields_client_references() {
    let imports = vec![
        ClientModuleImport { request: "./a".to_string(), ids: vec!["x".to_string()] },
        ClientModuleImport { request: "./b".to_string(), ids: Vec::new() },
    ];
    let module = RscEntryModule::new("Home".to_string(), imports);
    let deps = module.build();
    assert_eq!(deps.len(), 2);
    assert_eq!(deps[0].request, "./a");
    assert_eq!(deps[0].referenced_exports, vec!["x".to_string()]);
    assert_eq!(deps[0].resource_identifier, "rsc-client-reference=./a");
    assert_eq!(deps[1].request, "./b");
}

#[test]
fn rsc_entry_module_dependency_bookkeeping() {
    let mut module = RscEntryModule::new("Home".to_string(), Vec::new());
    module.add_dependency_id(4);
    module.add_dependency_id(7);
    module.add_dependency_id(4);
    module.add_block_id(9);
    assert_eq!(module.get_dependencies(), &vec![4, 7, 4]);
    module.remove_dependency_id(4);
    assert_eq!(module.get_dependencies(), &vec![7]);
    assert_eq!(module.get_blocks(), &vec![9]);
}

#[test]
fn factory_creates_module_from_dependency() {
    let imports = vec![ClientModuleImport { request: "./a".to_string(), ids: Vec::new() }];
    let dep = RscEntryDependency::new("App".to_string(), imports);
    let module = RscEntryModuleFactory.create(&dep);
    assert_eq!(module.name, "App");
    assert_eq!(module.identifier(), "rsc entry (App) [./a]");
}

#[test]
fn code_generation_joins_comment_lines() {
    let comments = vec!["/* ./a */".to_string(), "/* ./b */".to_string()];
    assert_eq!(bundler_passes::rsc::code_generation(&comments), "/* ./a */\n/* ./b */");
    assert_eq!(bundler_passes::rsc::code_generation(&Vec::new()), "");
}

#[test]
fn client_reference_exports_are_one_path() {
    let dep = bundler_passes::rsc::ClientReferenceDependency::new(
        "./a".to_string(),
        vec!["x".to_string()],
    );
    let refs = dep.get_referenced_exports();
    assert_eq!(refs.len(), 1);
    match &refs[0] {
        bundler_passes::dependency::ExtendedReferencedExport::Export(e) => {
            assert_eq!(e.name, vec!["x".to_string()]);
        }
        bundler_passes::dependency::ExtendedReferencedExport::Object => {
            panic!("expected the recorded path")
        }
    }
}
