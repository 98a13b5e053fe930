//! The dependency validator: uniqueness of names, sources and include
//! names, build-method field rules, and the pkg-config probe outcomes.

use iceforge::dependencies::{
    Dependencies, Dependency, ManualDependency, PkgConfigDependency, RemoteBuildMethod,
    RemoteDependency,
};
use iceforge::error::ErrorType;
use iceforge::positioned::{Positioned, Span};

fn span(start: usize, end: usize) -> Span {
    Span { start, end }
}

fn positioned(value: &str, start: usize) -> Positioned<String> {
    Positioned::new(value.to_string(), span(start, start + value.len()))
}

fn remote(name: &str, start: usize, source: &str, version: Option<&str>) -> RemoteDependency {
    RemoteDependency {
        name: positioned(name, start),
        version: version.map(|v| positioned(v, start + 40)),
        source: positioned(source, start + 80),
        include_name: None,
        include_dirs: Vec::new(),
        build_method: None,
        build_command: None,
        build_output: None,
        imports: None,
    }
}

fn add_remote(deps: &mut Dependencies, entry: RemoteDependency, start: usize) {
    deps.add(Dependency::Remote(Positioned::new(entry, span(start, start + 10))));
}

fn pkg(name: &str, start: usize, query: &str) -> PkgConfigDependency {
    PkgConfigDependency {
        name: positioned(name, start),
        pkg_config_query: positioned(query, start + 40),
    }
}

fn manual(name: &str, start: usize) -> ManualDependency {
    ManualDependency { name: positioned(name, start), cflags: None, ldflags: None }
}

#[test]
fn duplicate_source_reports_first_declaration() {
    let mut deps = Dependencies::new();
    add_remote(&mut deps, remote("zlib", 100, "https://example.com/zlib.git", None), 90);
    add_remote(&mut deps, remote("zlib-ng", 300, "https://example.com/zlib.git", None), 290);
    let e = deps.check_dependencies(&Vec::new()).unwrap_err();
    assert_eq!(e.error_type, ErrorType::DuplicateDependencySource);
    assert_eq!(e.message, "Duplicate dependency url with same versions");
    // Primary span: the second declaration's source; secondary: the first's.
    assert_eq!(e.span, Some(span(380, 408)));
    let info = e.additional_info.expect("previous definition expected");
    assert_eq!(info.span, span(180, 208));
    assert_eq!(info.message, "Previously defined here");
}

#[test]
fn same_source_with_different_versions_is_accepted() {
    let mut deps = Dependencies::new();
    add_remote(&mut deps, remote("zlib", 100, "https://example.com/zlib.git", Some("1.2")), 90);
    add_remote(&mut deps, remote("zlib2", 300, "https://example.com/zlib.git", Some("1.3")), 290);
    assert!(deps.check_dependencies(&Vec::new()).is_ok());
}

#[test]
fn duplicate_name_across_categories_is_rejected() {
    let mut deps = Dependencies::new();
    add_remote(&mut deps, remote("ssl", 100, "https://example.com/ssl.git", None), 90);
    deps.add(Dependency::Manual(Positioned::new(manual("ssl", 300), span(290, 310))));
    let e = deps.check_dependencies(&Vec::new()).unwrap_err();
    assert_eq!(e.error_type, ErrorType::DuplicateDependencyName);
    assert_eq!(e.message, "Duplicate dependency name");
    assert_eq!(e.span, Some(span(300, 303)));
    assert_eq!(e.additional_info.unwrap().span, span(100, 103));
}

#[test]
fn duplicate_include_name_is_rejected() {
    let mut deps = Dependencies::new();
    let mut first = remote("alpha", 100, "https://example.com/a.git", None);
    first.include_name = Some(positioned("common.h", 150));
    let mut second = remote("beta", 300, "https://example.com/b.git", None);
    second.include_name = Some(positioned("common.h", 350));
    add_remote(&mut deps, first, 90);
    add_remote(&mut deps, second, 290);
    let e = deps.check_dependencies(&Vec::new()).unwrap_err();
    assert_eq!(e.error_type, ErrorType::DuplicateDependencyIncludeName);
    assert_eq!(e.span, Some(span(350, 358)));
    assert_eq!(e.additional_info.unwrap().span, span(150, 158));
}

#[test]
fn custom_build_without_command_is_rejected() {
    let mut deps = Dependencies::new();
    let mut entry = remote("gen", 100, "https://example.com/gen.git", None);
    entry.build_method = Some(RemoteBuildMethod::Custom);
    add_remote(&mut deps, entry, 90);
    let e = deps.check_dependencies(&Vec::new()).unwrap_err();
    assert_eq!(e.error_type, ErrorType::CustomBuildMissing);
    // The span covers the whole remote entry.
    assert_eq!(e.span, Some(span(90, 100)));
}

#[test]
fn non_custom_build_with_output_is_rejected() {
    let mut deps = Dependencies::new();
    let mut entry = remote("gen", 100, "https://example.com/gen.git", None);
    entry.build_method = Some(RemoteBuildMethod::Cmake);
    entry.build_output = Some(positioned("libgen.a", 160));
    add_remote(&mut deps, entry, 90);
    let e = deps.check_dependencies(&Vec::new()).unwrap_err();
    assert_eq!(e.error_type, ErrorType::ExtraFieldNonCustomBuild);
    assert_eq!(e.message, "Non-Custom build method has build_output");
    assert_eq!(e.span, Some(span(160, 168)));
}

#[test]
fn non_custom_build_with_command_is_rejected() {
    let mut deps = Dependencies::new();
    let mut entry = remote("gen", 100, "https://example.com/gen.git", None);
    entry.build_method = Some(RemoteBuildMethod::Meson);
    entry.build_command = Some(positioned("make", 170));
    add_remote(&mut deps, entry, 90);
    let e = deps.check_dependencies(&Vec::new()).unwrap_err();
    assert_eq!(e.error_type, ErrorType::ExtraFieldNonCustomBuild);
    assert_eq!(e.message, "non-Custom build method has build_command");
    assert_eq!(e.span, Some(span(170, 174)));
}

#[test]
fn custom_build_with_command_is_accepted() {
    let mut deps = Dependencies::new();
    let mut entry = remote("gen", 100, "https://example.com/gen.git", None);
    entry.build_method = Some(RemoteBuildMethod::Custom);
    entry.build_command = Some(positioned("make gen", 170));
    entry.build_output = Some(positioned("libgen.a", 190));
    add_remote(&mut deps, entry, 90);
    assert!(deps.check_dependencies(&Vec::new()).is_ok());
}

#[test]
fn failed_pkg_config_probe_is_rejected() {
    let mut deps = Dependencies::new();
    deps.add(Dependency::PkgConfig(Positioned::new(pkg("gtk", 100, "gtk4"), span(90, 110))));
    let e = deps.check_dependencies(&vec![false]).unwrap_err();
    assert_eq!(e.error_type, ErrorType::InvalidPkgConfigQuery);
    assert_eq!(e.message, "Pkg-config dependency not found");
    assert_eq!(e.span, Some(span(140, 144)));
}

#[test]
fn missing_probe_outcome_counts_as_not_found() {
    let mut deps = Dependencies::new();
    deps.add(Dependency::PkgConfig(Positioned::new(pkg("gtk", 100, "gtk4"), span(90, 110))));
    let e = deps.check_dependencies(&Vec::new()).unwrap_err();
    assert_eq!(e.error_type, ErrorType::InvalidPkgConfigQuery);
}

#[test]
fn successful_probe_is_accepted() {
    let mut deps = Dependencies::new();
    deps.add(Dependency::PkgConfig(Positioned::new(pkg("gtk", 100, "gtk4"), span(90, 110))));
    assert!(deps.check_dependencies(&vec![true]).is_ok());
}

#[test]
fn has_dependency_sees_every_category() {
    let mut deps = Dependencies::new();
    add_remote(&mut deps, remote("zlib", 100, "https://example.com/zlib.git", None), 90);
    deps.add(Dependency::PkgConfig(Positioned::new(pkg("gtk", 200, "gtk4"), span(190, 210))));
    deps.add(Dependency::Manual(Positioned::new(manual("mymath", 300), span(290, 310))));
    assert!(deps.has_dependency("zlib"));
    assert!(deps.has_dependency("gtk"));
    assert!(deps.has_dependency("mymath"));
    assert!(!deps.has_dependency("curl"));
    assert!(!deps.has_dependency(""));
}
