//! End-to-end scenarios through `verify_config`: build order, cycles,
//! duplicate sources, overrides, determinism and re-validation.

use iceforge::build_config::{BuildConfig, ProbeResults};
use iceforge::build_settings::BuildSettings;
use iceforge::dependencies::Dependencies;
use iceforge::error::ErrorType;
use iceforge::overrides::Override;
use iceforge::positioned::{Positioned, Span};
use iceforge::subproject::{SubProject, SubProjectDependency, SubProjectType};

fn span(start: usize, end: usize) -> Span {
    Span { start, end }
}

fn positioned(value: &str, start: usize) -> Positioned<String> {
    Positioned::new(value.to_string(), span(start, start + value.len()))
}

fn settings() -> BuildSettings {
    BuildSettings {
        version: "0.1.0".to_string(),
        c_standard: positioned("c11", 10),
        compiler: positioned("cc", 20),
        global_cflags: None,
        debug_flags: None,
        release_flags: None,
        parallel_jobs: None,
    }
}

fn subproject(
    name: &str,
    start: usize,
    kind: SubProjectType,
    deps: Vec<(&str, usize)>,
) -> SubProject {
    let dependencies = if deps.is_empty() {
        None
    } else {
        Some(
            deps.into_iter()
                .map(|(n, s)| {
                    Positioned::new(
                        SubProjectDependency::Named(n.to_string()),
                        span(s, s + n.len()),
                    )
                })
                .collect(),
        )
    };
    SubProject {
        name: positioned(name, start),
        kind,
        src_dir: None,
        include_dirs: None,
        dependencies,
    }
}

fn config(subprojects: Vec<SubProject>) -> BuildConfig {
    BuildConfig {
        build: settings(),
        dependencies: Dependencies::new(),
        subprojects,
        custom_build_rules: None,
        overrides: None,
    }
}

fn probes_ok() -> ProbeResults {
    ProbeResults { compiler_found: true, c_standard_ok: true, pkg_config_found: Vec::new() }
}

fn names(config: &BuildConfig) -> Vec<String> {
    config.subprojects.iter().map(|s| s.name.value.clone()).collect()
}

#[test]
fn three_subprojects_build_in_dependency_order() {
    let mut cfg = config(vec![
        subproject("game", 100, SubProjectType::Binary, vec![("engine", 110)]),
        subproject("engine", 200, SubProjectType::Library, vec![("core", 210)]),
        subproject("core", 300, SubProjectType::Library, vec![]),
    ]);
    let outcome = cfg.verify_config(&probes_ok());
    assert!(outcome.is_ok());
    assert_eq!(names(&cfg), vec!["core", "engine", "game"]);
}

#[test]
fn declaration_order_is_kept_where_dependencies_allow() {
    let mut cfg = config(vec![
        subproject("core", 100, SubProjectType::Library, vec![]),
        subproject("engine", 200, SubProjectType::Library, vec![("core", 210)]),
        subproject("game", 300, SubProjectType::Binary, vec![("engine", 310)]),
    ]);
    let outcome = cfg.verify_config(&probes_ok());
    assert!(outcome.is_ok());
    assert_eq!(names(&cfg), vec!["core", "engine", "game"]);
}

#[test]
fn two_subproject_cycle_reports_path() {
    let mut cfg = config(vec![
        subproject("a", 100, SubProjectType::Library, vec![("b", 110)]),
        subproject("b", 200, SubProjectType::Library, vec![("a", 210)]),
    ]);
    let e = cfg.verify_config(&probes_ok()).unwrap_err();
    assert_eq!(e.error_type, ErrorType::CircularDependency);
    assert_eq!(e.message, "Circular dependency detected in subproject: a");
    assert_eq!(e.span, Some(span(100, 101)));
    let info = e.additional_info.expect("cycle path expected");
    assert_eq!(info.message, "Dependency cycle: a -> b -> a");
    assert_eq!(info.span, span(100, 101));
}

#[test]
fn self_cycle_is_detected() {
    let mut cfg = config(vec![subproject("solo", 100, SubProjectType::Library, vec![(
        "solo", 110,
    )])]);
    let e = cfg.verify_config(&probes_ok()).unwrap_err();
    assert_eq!(e.error_type, ErrorType::CircularDependency);
    let info = e.additional_info.unwrap();
    assert_eq!(info.message, "Dependency cycle: solo -> solo");
}

#[test]
fn compiler_probe_failure_is_fatal_first() {
    let mut cfg = config(vec![]);
    let probes =
        ProbeResults { compiler_found: false, c_standard_ok: false, pkg_config_found: Vec::new() };
    let e = cfg.verify_config(&probes).unwrap_err();
    assert_eq!(e.error_type, ErrorType::IncorrectCompiler);
    assert_eq!(e.message, "Compiler not in path");
    assert_eq!(e.span, Some(span(20, 22)));
}

#[test]
fn standard_probe_failure_points_at_standard() {
    let mut cfg = config(vec![]);
    let probes =
        ProbeResults { compiler_found: true, c_standard_ok: false, pkg_config_found: Vec::new() };
    let e = cfg.verify_config(&probes).unwrap_err();
    assert_eq!(e.error_type, ErrorType::UnsupportedCStandard);
    assert_eq!(e.message, "Unsupported C standard");
    assert_eq!(e.span, Some(span(10, 13)));
}

#[test]
fn unknown_override_is_rejected() {
    let mut cfg = config(vec![subproject("core", 100, SubProjectType::Library, vec![])]);
    cfg.overrides = Some(vec![Override {
        name: positioned("renderer", 400),
        c_standard: None,
        compiler: None,
        cflags: None,
        debug_flags: None,
        release_flags: None,
        parallel_jobs: None,
    }]);
    let e = cfg.verify_config(&probes_ok()).unwrap_err();
    assert_eq!(e.error_type, ErrorType::OverrideNameConflict);
    assert_eq!(e.message, "Override name renderer is not defined in any subproject");
    assert_eq!(e.span, Some(span(400, 408)));
    assert!(e.additional_info.is_none());
}

#[test]
fn duplicate_override_reports_earlier_definition() {
    let mut cfg = config(vec![subproject("core", 100, SubProjectType::Library, vec![])]);
    let make = |start: usize| Override {
        name: positioned("core", start),
        c_standard: None,
        compiler: None,
        cflags: None,
        debug_flags: None,
        release_flags: None,
        parallel_jobs: None,
    };
    cfg.overrides = Some(vec![make(400), make(500)]);
    let e = cfg.verify_config(&probes_ok()).unwrap_err();
    assert_eq!(e.error_type, ErrorType::OverrideNameConflict);
    assert_eq!(e.message, "Override name core is already in use");
    assert_eq!(e.span, Some(span(500, 504)));
    assert_eq!(e.additional_info.unwrap().span, span(400, 404));
}

#[test]
fn matching_override_is_accepted() {
    let mut cfg = config(vec![subproject("core", 100, SubProjectType::Library, vec![])]);
    cfg.overrides = Some(vec![Override {
        name: positioned("core", 400),
        c_standard: Some("c99".to_string()),
        compiler: None,
        cflags: None,
        debug_flags: None,
        release_flags: None,
        parallel_jobs: Some(4),
    }]);
    assert!(cfg.verify_config(&probes_ok()).is_ok());
}

#[test]
fn validation_is_deterministic() {
    let build = || {
        config(vec![
            subproject("game", 100, SubProjectType::Binary, vec![("engine", 110)]),
            subproject("engine", 200, SubProjectType::Library, vec![("core", 210)]),
            subproject("core", 300, SubProjectType::Library, vec![]),
        ])
    };
    let mut first = build();
    let mut second = build();
    assert!(first.verify_config(&probes_ok()).is_ok());
    assert!(second.verify_config(&probes_ok()).is_ok());
    assert_eq!(names(&first), names(&second));
}

#[test]
fn revalidation_keeps_the_build_order() {
    let mut cfg = config(vec![
        subproject("game", 100, SubProjectType::Binary, vec![("engine", 110)]),
        subproject("engine", 200, SubProjectType::Library, vec![("core", 210)]),
        subproject("core", 300, SubProjectType::Library, vec![]),
    ]);
    assert!(cfg.verify_config(&probes_ok()).is_ok());
    let once = names(&cfg);
    assert!(cfg.verify_config(&probes_ok()).is_ok());
    assert_eq!(names(&cfg), once);
}

#[test]
fn empty_configuration_is_valid() {
    let mut cfg = config(vec![]);
    assert!(cfg.verify_config(&probes_ok()).is_ok());
    assert!(cfg.subprojects.is_empty());
}

#[test]
fn cycle_found_from_outside_names_the_traversal_root() {
    // The traversal starts at x, which is not itself on the cycle: the
    // primary diagnostic points at x, the reported path spells out the
    // cycle from the subproject where it starts.
    let mut cfg = config(vec![
        subproject("x", 100, SubProjectType::Binary, vec![("a", 110)]),
        subproject("a", 200, SubProjectType::Library, vec![("b", 210)]),
        subproject("b", 300, SubProjectType::Library, vec![("a", 310)]),
    ]);
    let e = cfg.verify_config(&probes_ok()).unwrap_err();
    assert_eq!(e.error_type, ErrorType::CircularDependency);
    assert_eq!(e.message, "Circular dependency detected in subproject: x");
    assert_eq!(e.span, Some(span(100, 101)));
    assert_eq!(e.additional_info.unwrap().message, "Dependency cycle: a -> b -> a");
}
