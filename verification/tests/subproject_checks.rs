//! The subproject phases one by one: duplicate names and the linkable name
//! set, reference resolution, cycle detection and build order; the custom
//! build rule validator; the dispatch plan of the command surface.

use iceforge::cli;
use iceforge::cli::{CliRequest, Command};
use iceforge::custom_build_rule::{CustomBuildRule, CustomBuildRuleType};
use iceforge::dependencies::{Dependencies, Dependency, ManualDependency};
use iceforge::error::ErrorType;
use iceforge::positioned::{Positioned, Span};
use iceforge::subproject::{SubProject, SubProjectDependency, SubProjectType};

fn span(start: usize, end: usize) -> Span {
    Span { start, end }
}

fn positioned(value: &str, start: usize) -> Positioned<String> {
    Positioned::new(value.to_string(), span(start, start + value.len()))
}

fn subproject(
    name: &str,
    start: usize,
    kind: SubProjectType,
    deps: Vec<(&str, usize)>,
) -> SubProject {
    let dependencies = if deps.is_empty() {
        None
    } else {
        Some(
            deps.into_iter()
                .map(|(n, s)| {
                    Positioned::new(
                        SubProjectDependency::Named(n.to_string()),
                        span(s, s + n.len()),
                    )
                })
                .collect(),
        )
    };
    SubProject {
        name: positioned(name, start),
        kind,
        src_dir: None,
        include_dirs: None,
        dependencies,
    }
}

fn manual_deps(names: Vec<(&str, usize)>) -> Dependencies {
    let mut deps = Dependencies::new();
    for (name, start) in names {
        deps.add(Dependency::Manual(Positioned::new(
            ManualDependency { name: positioned(name, start), cflags: None, ldflags: None },
            span(start, start + 20),
        )));
    }
    deps
}

#[test]
fn duplicate_subproject_name_reports_both_sites() {
    let subs = vec![
        subproject("app", 100, SubProjectType::Binary, vec![]),
        subproject("app", 200, SubProjectType::Library, vec![]),
    ];
    let e = SubProject::check_duplicate_names(&subs).unwrap_err();
    assert_eq!(e.error_type, ErrorType::DuplicateSubprojectName);
    assert_eq!(e.message, "Duplicate subproject name: app");
    assert_eq!(e.span, Some(span(200, 203)));
    let info = e.additional_info.unwrap();
    assert_eq!(info.span, span(100, 103));
    assert_eq!(info.message, "Previous subproject with same name: app");
}

#[test]
fn linkable_name_set_collects_libraries_and_header_only() {
    let subs = vec![
        subproject("app", 100, SubProjectType::Binary, vec![]),
        subproject("core", 200, SubProjectType::Library, vec![]),
        subproject("hdr", 300, SubProjectType::HeaderOnly, vec![]),
    ];
    let libs = SubProject::check_duplicate_names(&subs).unwrap();
    assert_eq!(libs, vec!["core".to_string(), "hdr".to_string()]);
}

#[test]
fn reference_to_declared_dependency_or_library_succeeds() {
    let subs = vec![
        subproject("core", 100, SubProjectType::Library, vec![]),
        subproject("app", 200, SubProjectType::Binary, vec![("core", 210), ("zlib", 220)]),
    ];
    let deps = manual_deps(vec![("zlib", 500)]);
    let libs = SubProject::check_duplicate_names(&subs).unwrap();
    assert!(SubProject::check_subproject_dependencies(&subs, &deps, &libs).is_ok());
}

#[test]
fn reference_to_binary_subproject_fails() {
    let subs = vec![
        subproject("tool", 100, SubProjectType::Binary, vec![]),
        subproject("app", 200, SubProjectType::Binary, vec![("tool", 210)]),
    ];
    let deps = Dependencies::new();
    let libs = SubProject::check_duplicate_names(&subs).unwrap();
    let e = SubProject::check_subproject_dependencies(&subs, &deps, &libs).unwrap_err();
    assert_eq!(e.error_type, ErrorType::InvalidSubprojectDependency);
    assert_eq!(e.message, "Invalid dependency: tool");
    assert_eq!(e.span, Some(span(210, 214)));
}

#[test]
fn unknown_reference_fails_with_its_span() {
    let subs = vec![subproject("app", 100, SubProjectType::Binary, vec![("nothere", 110)])];
    let deps = Dependencies::new();
    let libs = SubProject::check_duplicate_names(&subs).unwrap();
    let e = SubProject::check_subproject_dependencies(&subs, &deps, &libs).unwrap_err();
    assert_eq!(e.error_type, ErrorType::InvalidSubprojectDependency);
    assert_eq!(e.message, "Invalid dependency: nothere");
    assert_eq!(e.span, Some(span(110, 117)));
}

#[test]
fn detailed_reference_resolves_by_name() {
    let imports = Some(vec!["math".to_string()]);
    let reference = Positioned::new(
        SubProjectDependency::Detailed { name: "zlib".to_string(), imports },
        span(210, 230),
    );
    let subs = vec![SubProject {
        name: positioned("app", 100),
        kind: SubProjectType::Binary,
        src_dir: None,
        include_dirs: None,
        dependencies: Some(vec![reference]),
    }];
    let deps = manual_deps(vec![("zlib", 500)]);
    let libs = SubProject::check_duplicate_names(&subs).unwrap();
    assert!(SubProject::check_subproject_dependencies(&subs, &deps, &libs).is_ok());
}

#[test]
fn later_references_are_still_checked_after_a_detailed_match() {
    let reference = Positioned::new(
        SubProjectDependency::Detailed { name: "zlib".to_string(), imports: None },
        span(210, 230),
    );
    let bad = Positioned::new(SubProjectDependency::Named("ghost".to_string()), span(240, 245));
    let subs = vec![SubProject {
        name: positioned("app", 100),
        kind: SubProjectType::Binary,
        src_dir: None,
        include_dirs: None,
        dependencies: Some(vec![reference, bad]),
    }];
    let deps = manual_deps(vec![("zlib", 500)]);
    let libs = SubProject::check_duplicate_names(&subs).unwrap();
    let e = SubProject::check_subproject_dependencies(&subs, &deps, &libs).unwrap_err();
    assert_eq!(e.error_type, ErrorType::InvalidSubprojectDependency);
    assert_eq!(e.message, "Invalid dependency: ghost");
}

#[test]
fn build_order_puts_every_dependency_first() {
    let subs = vec![
        subproject("top", 100, SubProjectType::Binary, vec![("left", 110), ("right", 120)]),
        subproject("left", 200, SubProjectType::Library, vec![("base", 210)]),
        subproject("right", 300, SubProjectType::Library, vec![("base", 310)]),
        subproject("base", 400, SubProjectType::Library, vec![]),
    ];
    let deps = Dependencies::new();
    let ordered = SubProject::verify_subprojects(subs, &deps).unwrap();
    let order: Vec<String> = ordered.iter().map(|s| s.name.value.clone()).collect();
    let position = |n: &str| order.iter().position(|x| x == n).unwrap();
    assert_eq!(order.len(), 4);
    assert!(position("base") < position("left"));
    assert!(position("base") < position("right"));
    assert!(position("left") < position("top"));
    assert!(position("right") < position("top"));
}

#[test]
fn three_node_cycle_is_reported() {
    let subs = vec![
        subproject("a", 100, SubProjectType::Library, vec![("b", 110)]),
        subproject("b", 200, SubProjectType::Library, vec![("c", 210)]),
        subproject("c", 300, SubProjectType::Library, vec![("a", 310)]),
    ];
    let deps = Dependencies::new();
    let e = SubProject::verify_subprojects(subs, &deps).unwrap_err();
    assert_eq!(e.error_type, ErrorType::CircularDependency);
    assert_eq!(e.additional_info.unwrap().message, "Dependency cycle: a -> b -> c -> a");
}

#[test]
fn duplicate_custom_build_rule_is_rejected() {
    let rule = |start: usize| CustomBuildRule {
        name: positioned("shaders", start),
        description: None,
        src_dir: "shaders".to_string(),
        output_dir: "build/shaders".to_string(),
        trigger_extensions: vec!["vert".to_string(), "frag".to_string()],
        output_extension: "spv".to_string(),
        command: "glslc".to_string(),
        rebuild_rule: CustomBuildRuleType::IfChanged,
    };
    let rules = vec![rule(100), rule(300)];
    let e = CustomBuildRule::verify_custom_build_rules(&rules).unwrap_err();
    assert_eq!(e.error_type, ErrorType::DuplicateCustomBuildRuleName);
    assert_eq!(e.message, "Duplicate custom build rule name shaders");
    assert_eq!(e.span, Some(span(300, 307)));
    assert_eq!(e.additional_info.unwrap().span, span(100, 107));
}

#[test]
fn distinct_custom_build_rules_are_accepted() {
    let rule = |name: &str, start: usize| CustomBuildRule {
        name: positioned(name, start),
        description: Some("asset rule".to_string()),
        src_dir: "assets".to_string(),
        output_dir: "build/assets".to_string(),
        trigger_extensions: vec!["png".to_string()],
        output_extension: "ktx".to_string(),
        command: "convert".to_string(),
        rebuild_rule: CustomBuildRuleType::Always,
    };
    let rules = vec![rule("textures", 100), rule("sounds", 300)];
    assert!(CustomBuildRule::verify_custom_build_rules(&rules).is_ok());
}

#[test]
fn dispatch_plan_orders_subcommand_then_flags() {
    let cli = CliRequest {
        build: true,
        run: true,
        clean: true,
        gen_cc: true,
        gen_vsc: false,
        command: Some(Command::Refresh),
    };
    let plan = cli::parse(cli);
    assert_eq!(plan.len(), 4);
    assert!(matches!(plan[0], Command::Refresh));
    match &plan[1] {
        Command::Clean(options) => assert!(options.subproject.is_none()),
        other => panic!("expected clean, got {:?}", other),
    }
    match &plan[2] {
        Command::Build(options) => {
            assert!(options.debug && !options.release);
            assert!(options.generate_compile_commands);
            assert!(!options.generate_vscode_config);
        }
        other => panic!("expected build, got {:?}", other),
    }
    assert!(matches!(plan[3], Command::Run(_)));
}

#[test]
fn empty_invocation_plans_nothing() {
    let cli = CliRequest {
        build: false,
        run: false,
        clean: false,
        gen_cc: false,
        gen_vsc: false,
        command: None,
    };
    assert!(cli::parse(cli).is_empty());
}

#[test]
fn name_shared_by_dependency_and_subproject_still_orders_the_subproject_first() {
    // "core" is both a declared manual dependency and a library subproject:
    // the reference resolves, and the graph edge to the subproject stands.
    let subs = vec![
        subproject("app", 100, SubProjectType::Binary, vec![("core", 110)]),
        subproject("core", 200, SubProjectType::Library, vec![]),
    ];
    let deps = manual_deps(vec![("core", 500)]);
    let ordered = SubProject::verify_subprojects(subs, &deps).unwrap();
    let order: Vec<String> = ordered.iter().map(|s| s.name.value.clone()).collect();
    assert_eq!(order, vec!["core".to_string(), "app".to_string()]);
}

#[test]
fn duplicate_name_wins_over_later_unresolved_reference() {
    // The phases are ordered: the duplicate name is found before the
    // unresolved reference of the later subproject.
    let subs = vec![
        subproject("app", 100, SubProjectType::Binary, vec![]),
        subproject("app", 200, SubProjectType::Library, vec![("ghost", 210)]),
    ];
    let deps = Dependencies::new();
    let e = SubProject::verify_subprojects(subs, &deps).unwrap_err();
    assert_eq!(e.error_type, ErrorType::DuplicateSubprojectName);
}
