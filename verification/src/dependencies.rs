//! The three categories of external dependency (remote, pkg-config, manual),
//! their collection, and the dependency validator.
//!
//! The validator visits every dependency exactly once — remote entries first,
//! then pkg-config, then manual, each category in declaration order — and
//! aborts with the first violation found. Checked per entry, in order:
//! composite (source, version) uniqueness among remotes, name uniqueness
//! across all three categories, include-name uniqueness among remotes that
//! declare one, and the build-method field rules; pkg-config entries must
//! additionally have been found by the external package-discovery probe,
//! whose per-entry outcomes are handed in as plain booleans.

use vstd::prelude::*;
use vstd::string::StringExecFns;

use crate::error::{Error, ErrorModel, ErrorType, InfoModel};
use crate::positioned::{Positioned, Span};

verus! {

/// How a remote dependency is built once fetched.
#[derive(Clone, Copy, Debug, PartialEq, Eq, Structural)]
pub enum RemoteBuildMethod {
    HeaderOnly,
    Cmake,
    Meson,
    Iceforge,
    Custom,
}

/// A dependency fetched from a source locator (URL or path).
#[derive(Clone, Debug)]
pub struct RemoteDependency {
    pub name: Positioned<String>,
    pub version: Option<Positioned<String>>,
    pub source: Positioned<String>,
    pub include_name: Option<Positioned<String>>,
    pub include_dirs: Vec<String>,
    pub build_method: Option<RemoteBuildMethod>,
    pub build_command: Option<Positioned<String>>,
    pub build_output: Option<Positioned<String>>,
    pub imports: Option<Vec<String>>,
}

/// A dependency resolved through the system package-discovery probe.
#[derive(Clone, Debug)]
pub struct PkgConfigDependency {
    pub name: Positioned<String>,
    pub pkg_config_query: Positioned<String>,
}

/// A dependency whose flags are written out by hand.
#[derive(Clone, Debug)]
pub struct ManualDependency {
    pub name: Positioned<String>,
    pub cflags: Option<String>,
    pub ldflags: Option<String>,
}

/// The collection of all declared dependencies, by category.
#[derive(Clone, Debug)]
pub struct Dependencies {
    pub remote: Vec<Positioned<RemoteDependency>>,
    pub pkg_config: Vec<Positioned<PkgConfigDependency>>,
    pub manual: Vec<Positioned<ManualDependency>>,
}

/// One dependency of any category: the item type of the read-only
/// flattening view over the collection.
#[derive(Clone)]
pub enum Dependency {
    Remote(Positioned<RemoteDependency>),
    PkgConfig(Positioned<PkgConfigDependency>),
    Manual(Positioned<ManualDependency>),
}

/// The positioned name of the dependency at visit index `t` (remote entries
/// first, then pkg-config, then manual, each in declaration order).
pub open spec fn dep_name_at(d: Dependencies, t: int) -> Positioned<String> {
    let r = d.remote@.len() as int;
    let p = d.pkg_config@.len() as int;
    if t < r {
        d.remote@[t].value.name
    } else if t < r + p {
        d.pkg_config@[t - r].value.name
    } else {
        d.manual@[t - r - p].value.name
    }
}

/// How many dependencies the collection declares, over all categories.
pub open spec fn dep_count(d: Dependencies) -> int {
    d.remote@.len() + d.pkg_config@.len() + d.manual@.len() as int
}

/// Whether some declared dependency, of any category, is named `name`.
pub open spec fn has_dep_name(d: Dependencies, name: Seq<char>) -> bool {
    exists|t: int| 0 <= t < dep_count(d) && dep_name_at(d, t).value@ == name
}

/// The least `j` with `from <= j < upto` whose remote entry is named `name`,
/// or `upto` if there is none.
pub open spec fn first_remote_name(
    rs: Seq<Positioned<RemoteDependency>>,
    name: Seq<char>,
    from: int,
    upto: int,
) -> int
    decreases upto - from,
{
    if from < 0 || from >= upto {
        upto
    } else if rs[from].value.name.value@ == name {
        from
    } else {
        first_remote_name(rs, name, from + 1, upto)
    }
}

/// The least `j` with `from <= j < upto` whose pkg-config entry is named
/// `name`, or `upto` if there is none.
pub open spec fn first_pkg_name(
    ps: Seq<Positioned<PkgConfigDependency>>,
    name: Seq<char>,
    from: int,
    upto: int,
) -> int
    decreases upto - from,
{
    if from < 0 || from >= upto {
        upto
    } else if ps[from].value.name.value@ == name {
        from
    } else {
        first_pkg_name(ps, name, from + 1, upto)
    }
}

/// The least `j` with `from <= j < upto` whose manual entry is named `name`,
/// or `upto` if there is none.
pub open spec fn first_manual_name(
    ms: Seq<Positioned<ManualDependency>>,
    name: Seq<char>,
    from: int,
    upto: int,
) -> int
    decreases upto - from,
{
    if from < 0 || from >= upto {
        upto
    } else if ms[from].value.name.value@ == name {
        from
    } else {
        first_manual_name(ms, name, from + 1, upto)
    }
}

/// The span of the name of the first dependency named `name` among the first
/// `cap_r` remote, `cap_p` pkg-config and `cap_m` manual entries, searching
/// the categories in visit order; `None` if no such dependency exists.
pub open spec fn prev_name_span(
    d: Dependencies,
    name: Seq<char>,
    cap_r: int,
    cap_p: int,
    cap_m: int,
) -> Option<Span> {
    let jr = first_remote_name(d.remote@, name, 0, cap_r);
    let jp = first_pkg_name(d.pkg_config@, name, 0, cap_p);
    let jm = first_manual_name(d.manual@, name, 0, cap_m);
    if jr < cap_r {
        Some(d.remote@[jr].value.name.span)
    } else if jp < cap_p {
        Some(d.pkg_config@[jp].value.name.span)
    } else if jm < cap_m {
        Some(d.manual@[jm].value.name.span)
    } else {
        None
    }
}

impl Dependencies {
    /// An empty collection: no dependency of any category.
    pub fn new() -> (d: Dependencies)
        ensures
            d.remote@ == Seq::<Positioned<RemoteDependency>>::empty(),
            d.pkg_config@ == Seq::<Positioned<PkgConfigDependency>>::empty(),
            d.manual@ == Seq::<Positioned<ManualDependency>>::empty(),
    {
        Dependencies { remote: Vec::new(), pkg_config: Vec::new(), manual: Vec::new() }
    }

    /// Files one dependency of any category into its collection.
    pub fn add(&mut self, dep: Dependency)
        ensures
            match dep {
                Dependency::Remote(r) => {
                    &&& final(self).remote@ == old(self).remote@.push(r)
                    &&& final(self).pkg_config@ == old(self).pkg_config@
                    &&& final(self).manual@ == old(self).manual@
                },
                Dependency::PkgConfig(p) => {
                    &&& final(self).remote@ == old(self).remote@
                    &&& final(self).pkg_config@ == old(self).pkg_config@.push(p)
                    &&& final(self).manual@ == old(self).manual@
                },
                Dependency::Manual(m) => {
                    &&& final(self).remote@ == old(self).remote@
                    &&& final(self).pkg_config@ == old(self).pkg_config@
                    &&& final(self).manual@ == old(self).manual@.push(m)
                },
            },
    {
        match dep {
            Dependency::Remote(r) => self.remote.push(r),
            Dependency::PkgConfig(p) => self.pkg_config.push(p),
            Dependency::Manual(m) => self.manual.push(m),
        }
    }

    /// Searches the first `cap_r` remote, `cap_p` pkg-config and `cap_m`
    /// manual entries, in visit order, for one named `name`; returns the span
    /// of the name of the first such entry.
    fn find_prev_name(&self, name: &String, cap_r: usize, cap_p: usize, cap_m: usize) -> (found:
        Option<Span>)
        requires
            cap_r <= self.remote@.len(),
            cap_p <= self.pkg_config@.len(),
            cap_m <= self.manual@.len(),
        ensures
            found == prev_name_span(*self, name@, cap_r as int, cap_p as int, cap_m as int),
    {
        let mut i: usize = 0;
        while i < cap_r
            invariant
                i <= cap_r <= self.remote@.len(),
                first_remote_name(self.remote@, name@, 0, cap_r as int) == first_remote_name(
                    self.remote@,
                    name@,
                    i as int,
                    cap_r as int,
                ),
            decreases cap_r - i,
        {
            if self.remote[i].value.name.value == *name {
                return Some(self.remote[i].value.name.span);
            }
            i = i + 1;
        }
        let mut i: usize = 0;
        while i < cap_p
            invariant
                i <= cap_p <= self.pkg_config@.len(),
                cap_r <= self.remote@.len(),
                first_remote_name(self.remote@, name@, 0, cap_r as int) == cap_r as int,
                first_pkg_name(self.pkg_config@, name@, 0, cap_p as int) == first_pkg_name(
                    self.pkg_config@,
                    name@,
                    i as int,
                    cap_p as int,
                ),
            decreases cap_p - i,
        {
            if self.pkg_config[i].value.name.value == *name {
                return Some(self.pkg_config[i].value.name.span);
            }
            i = i + 1;
        }
        let mut i: usize = 0;
        while i < cap_m
            invariant
                i <= cap_m <= self.manual@.len(),
                cap_r <= self.remote@.len(),
                cap_p <= self.pkg_config@.len(),
                first_remote_name(self.remote@, name@, 0, cap_r as int) == cap_r as int,
                first_pkg_name(self.pkg_config@, name@, 0, cap_p as int) == cap_p as int,
                first_manual_name(self.manual@, name@, 0, cap_m as int) == first_manual_name(
                    self.manual@,
                    name@,
                    i as int,
                    cap_m as int,
                ),
            decreases cap_m - i,
        {
            if self.manual[i].value.name.value == *name {
                return Some(self.manual[i].value.name.span);
            }
            i = i + 1;
        }
        None
    }

    /// Whether a dependency named `name` is declared in any category.
    /// A read-only query: the collection is not consumed.
    pub fn has_dependency(&self, name: &str) -> (present: bool)
        ensures
            present == has_dep_name(*self, name@),
    {
        let key = String::from_str(name);
        let found = self.find_prev_name(
            &key,
            self.remote.len(),
            self.pkg_config.len(),
            self.manual.len(),
        );
        proof {
            lemma_prev_name_span_complete(
                *self,
                name@,
                self.remote@.len() as int,
                self.pkg_config@.len() as int,
                self.manual@.len() as int,
            );
        }
        found.is_some()
    }
}

/// `first_remote_name` returns the least matching index in `[from, upto)`,
/// and `upto` exactly when there is no match.
pub proof fn lemma_first_remote_name(
    rs: Seq<Positioned<RemoteDependency>>,
    name: Seq<char>,
    from: int,
    upto: int,
)
    requires
        0 <= from <= upto,
    ensures
        from <= first_remote_name(rs, name, from, upto) <= upto,
        first_remote_name(rs, name, from, upto) < upto ==> rs[first_remote_name(
            rs,
            name,
            from,
            upto,
        )].value.name.value@ == name,
        forall|j: int|
            from <= j < first_remote_name(rs, name, from, upto) && j < upto
                ==> rs[j].value.name.value@ != name,
    decreases upto - from,
{
    if from < upto && rs[from].value.name.value@ != name {
        lemma_first_remote_name(rs, name, from + 1, upto);
    }
}

/// `first_pkg_name` returns the least matching index in `[from, upto)`,
/// and `upto` exactly when there is no match.
pub proof fn lemma_first_pkg_name(
    ps: Seq<Positioned<PkgConfigDependency>>,
    name: Seq<char>,
    from: int,
    upto: int,
)
    requires
        0 <= from <= upto,
    ensures
        from <= first_pkg_name(ps, name, from, upto) <= upto,
        first_pkg_name(ps, name, from, upto) < upto ==> ps[first_pkg_name(
            ps,
            name,
            from,
            upto,
        )].value.name.value@ == name,
        forall|j: int|
            from <= j < first_pkg_name(ps, name, from, upto) && j < upto
                ==> ps[j].value.name.value@ != name,
    decreases upto - from,
{
    if from < upto && ps[from].value.name.value@ != name {
        lemma_first_pkg_name(ps, name, from + 1, upto);
    }
}

/// `first_manual_name` returns the least matching index in `[from, upto)`,
/// and `upto` exactly when there is no match.
pub proof fn lemma_first_manual_name(
    ms: Seq<Positioned<ManualDependency>>,
    name: Seq<char>,
    from: int,
    upto: int,
)
    requires
        0 <= from <= upto,
    ensures
        from <= first_manual_name(ms, name, from, upto) <= upto,
        first_manual_name(ms, name, from, upto) < upto ==> ms[first_manual_name(
            ms,
            name,
            from,
            upto,
        )].value.name.value@ == name,
        forall|j: int|
            from <= j < first_manual_name(ms, name, from, upto) && j < upto
                ==> ms[j].value.name.value@ != name,
    decreases upto - from,
{
    if from < upto && ms[from].value.name.value@ != name {
        lemma_first_manual_name(ms, name, from + 1, upto);
    }
}

/// With the caps covering the whole collection, `prev_name_span` finds a span
/// exactly when some dependency carries the name.
pub proof fn lemma_prev_name_span_complete(
    d: Dependencies,
    name: Seq<char>,
    cap_r: int,
    cap_p: int,
    cap_m: int,
)
    requires
        cap_r == d.remote@.len(),
        cap_p == d.pkg_config@.len(),
        cap_m == d.manual@.len(),
    ensures
        prev_name_span(d, name, cap_r, cap_p, cap_m) is Some <==> has_dep_name(d, name),
{
    lemma_first_remote_name(d.remote@, name, 0, cap_r);
    lemma_first_pkg_name(d.pkg_config@, name, 0, cap_p);
    lemma_first_manual_name(d.manual@, name, 0, cap_m);
    if prev_name_span(d, name, cap_r, cap_p, cap_m) is Some {
        let jr = first_remote_name(d.remote@, name, 0, cap_r);
        let jp = first_pkg_name(d.pkg_config@, name, 0, cap_p);
        let jm = first_manual_name(d.manual@, name, 0, cap_m);
        if jr < cap_r {
            assert(dep_name_at(d, jr).value@ == name);
        } else if jp < cap_p {
            assert(dep_name_at(d, cap_r + jp).value@ == name);
        } else {
            assert(dep_name_at(d, cap_r + cap_p + jm).value@ == name);
        }
    }
    if has_dep_name(d, name) {
        let t = choose|t: int| 0 <= t < dep_count(d) && dep_name_at(d, t).value@ == name;
        if t < cap_r {
            assert(d.remote@[t].value.name.value@ == name);
        } else if t < cap_r + cap_p {
            assert(d.pkg_config@[t - cap_r].value.name.value@ == name);
        } else {
            assert(d.manual@[t - cap_r - cap_p].value.name.value@ == name);
        }
    }
}

} // verus!

verus! {

/// The (source, version) composite key of a remote dependency: two remote
/// dependencies may not share it.
pub open spec fn remote_key(r: RemoteDependency) -> (Seq<char>, Option<Seq<char>>) {
    (
        r.source.value@,
        match r.version {
            Some(v) => Some(v.value@),
            None => None,
        },
    )
}

/// The least `j` with `from <= j < upto` whose remote entry has the
/// composite key `key`, or `upto` if there is none.
pub open spec fn first_remote_key(
    rs: Seq<Positioned<RemoteDependency>>,
    key: (Seq<char>, Option<Seq<char>>),
    from: int,
    upto: int,
) -> int
    decreases upto - from,
{
    if from < 0 || from >= upto {
        upto
    } else if remote_key(rs[from].value) == key {
        from
    } else {
        first_remote_key(rs, key, from + 1, upto)
    }
}

/// The least `j` with `from <= j < upto` whose remote entry declares the
/// include name `name`, or `upto` if there is none.
pub open spec fn first_remote_include(
    rs: Seq<Positioned<RemoteDependency>>,
    name: Seq<char>,
    from: int,
    upto: int,
) -> int
    decreases upto - from,
{
    if from < 0 || from >= upto {
        upto
    } else if rs[from].value.include_name matches Some(inc) && inc.value@ == name {
        from
    } else {
        first_remote_include(rs, name, from + 1, upto)
    }
}

/// A "previously defined here" secondary annotation.
pub open spec fn prev_defined_info(span: Span) -> InfoModel {
    InfoModel { span, message: "Previously defined here"@ }
}

/// The duplicate-(source, version) violation of remote entry `i`, if any.
pub open spec fn dup_source_error(d: Dependencies, i: int) -> Option<ErrorModel> {
    let key = remote_key(d.remote@[i].value);
    let j = first_remote_key(d.remote@, key, 0, i);
    if j < i {
        Some(
            ErrorModel {
                error_type: ErrorType::DuplicateDependencySource,
                message: "Duplicate dependency url with same versions"@,
                span: Some(d.remote@[i].value.source.span),
                additional_info: Some(prev_defined_info(d.remote@[j].value.source.span)),
            },
        )
    } else {
        None
    }
}

/// A duplicate-name violation at the name `name`, previously defined at
/// `prev`.
pub open spec fn dup_name_model(name: Positioned<String>, prev: Span) -> ErrorModel {
    ErrorModel {
        error_type: ErrorType::DuplicateDependencyName,
        message: "Duplicate dependency name"@,
        span: Some(name.span),
        additional_info: Some(prev_defined_info(prev)),
    }
}

/// The duplicate-name violation of remote entry `i`, if any.
pub open spec fn dup_name_error_remote(d: Dependencies, i: int) -> Option<ErrorModel> {
    let name = d.remote@[i].value.name;
    match prev_name_span(d, name.value@, i, 0, 0) {
        Some(prev) => Some(dup_name_model(name, prev)),
        None => None,
    }
}

/// The duplicate-name violation of pkg-config entry `k`, if any; every
/// remote entry is visited before the first pkg-config entry.
pub open spec fn dup_name_error_pkg(d: Dependencies, k: int) -> Option<ErrorModel> {
    let name = d.pkg_config@[k].value.name;
    match prev_name_span(d, name.value@, d.remote@.len() as int, k, 0) {
        Some(prev) => Some(dup_name_model(name, prev)),
        None => None,
    }
}

/// The duplicate-name violation of manual entry `m`, if any; every remote
/// and pkg-config entry is visited before the first manual entry.
pub open spec fn dup_name_error_manual(d: Dependencies, m: int) -> Option<ErrorModel> {
    let name = d.manual@[m].value.name;
    match prev_name_span(d, name.value@, d.remote@.len() as int, d.pkg_config@.len() as int, m) {
        Some(prev) => Some(dup_name_model(name, prev)),
        None => None,
    }
}

/// The duplicate-include-name violation of remote entry `i`, if any.
pub open spec fn dup_include_error(d: Dependencies, i: int) -> Option<ErrorModel> {
    match d.remote@[i].value.include_name {
        Some(inc) => {
            let j = first_remote_include(d.remote@, inc.value@, 0, i);
            if j < i {
                Some(
                    ErrorModel {
                        error_type: ErrorType::DuplicateDependencyIncludeName,
                        message: "Duplicate dependency include name"@,
                        span: Some(inc.span),
                        additional_info: Some(
                            prev_defined_info(
                                match d.remote@[j].value.include_name {
                                    Some(prev_inc) => prev_inc.span,
                                    None => inc.span,
                                },
                            ),
                        ),
                    },
                )
            } else {
                None
            }
        },
        None => None,
    }
}

/// The build-method field violation of remote entry `i`, if any: a custom
/// build method requires a build command; any other declared method forbids
/// both the build command and the build output.
pub open spec fn build_method_error(d: Dependencies, i: int) -> Option<ErrorModel> {
    let r = d.remote@[i].value;
    match r.build_method {
        Some(m) => {
            if m is Custom {
                if r.build_command is None {
                    Some(
                        ErrorModel {
                            error_type: ErrorType::CustomBuildMissing,
                            message: "Custom build method missing build_command"@,
                            span: Some(d.remote@[i].span),
                            additional_info: None,
                        },
                    )
                } else {
                    None
                }
            } else {
                match r.build_output {
                    Some(bo) => Some(
                        ErrorModel {
                            error_type: ErrorType::ExtraFieldNonCustomBuild,
                            message: "Non-Custom build method has build_output"@,
                            span: Some(bo.span),
                            additional_info: None,
                        },
                    ),
                    None => match r.build_command {
                        Some(bc) => Some(
                            ErrorModel {
                                error_type: ErrorType::ExtraFieldNonCustomBuild,
                                message: "non-Custom build method has build_command"@,
                                span: Some(bc.span),
                                additional_info: None,
                            },
                        ),
                        None => None,
                    },
                }
            }
        },
        None => None,
    }
}

/// The first violation of remote entry `i`, with the per-entry checks
/// applied in order.
pub open spec fn remote_entry_error(d: Dependencies, i: int) -> Option<ErrorModel> {
    if dup_source_error(d, i) is Some {
        dup_source_error(d, i)
    } else if dup_name_error_remote(d, i) is Some {
        dup_name_error_remote(d, i)
    } else if dup_include_error(d, i) is Some {
        dup_include_error(d, i)
    } else {
        build_method_error(d, i)
    }
}

/// Whether the package-discovery probe found pkg-config entry `k`; a missing
/// outcome counts as not found.
pub open spec fn probe_ok(pkg_ok: Seq<bool>, k: int) -> bool {
    0 <= k < pkg_ok.len() && pkg_ok[k]
}

/// The first violation of pkg-config entry `k`: a duplicate name, else a
/// failed probe.
pub open spec fn pkg_entry_error(d: Dependencies, pkg_ok: Seq<bool>, k: int) -> Option<
    ErrorModel,
> {
    if dup_name_error_pkg(d, k) is Some {
        dup_name_error_pkg(d, k)
    } else if !probe_ok(pkg_ok, k) {
        Some(
            ErrorModel {
                error_type: ErrorType::InvalidPkgConfigQuery,
                message: "Pkg-config dependency not found"@,
                span: Some(d.pkg_config@[k].value.pkg_config_query.span),
                additional_info: None,
            },
        )
    } else {
        None
    }
}

/// The violation of manual entry `m`, if any: only its name is checked.
pub open spec fn manual_entry_error(d: Dependencies, m: int) -> Option<ErrorModel> {
    dup_name_error_manual(d, m)
}

/// The first violation among manual entries `m` and later.
pub open spec fn check_from_manual(d: Dependencies, m: int) -> Option<ErrorModel>
    decreases d.manual@.len() - m,
{
    if m < 0 || m >= d.manual@.len() {
        None
    } else if manual_entry_error(d, m) is Some {
        manual_entry_error(d, m)
    } else {
        check_from_manual(d, m + 1)
    }
}

/// The first violation among pkg-config entries `k` and later, then the
/// manual entries.
pub open spec fn check_from_pkg(d: Dependencies, pkg_ok: Seq<bool>, k: int) -> Option<ErrorModel>
    decreases d.pkg_config@.len() - k,
{
    if k < 0 || k >= d.pkg_config@.len() {
        check_from_manual(d, 0)
    } else if pkg_entry_error(d, pkg_ok, k) is Some {
        pkg_entry_error(d, pkg_ok, k)
    } else {
        check_from_pkg(d, pkg_ok, k + 1)
    }
}

/// The first violation among remote entries `i` and later, then the
/// pkg-config and manual entries.
pub open spec fn check_from_remote(d: Dependencies, pkg_ok: Seq<bool>, i: int) -> Option<
    ErrorModel,
>
    decreases d.remote@.len() - i,
{
    if i < 0 || i >= d.remote@.len() {
        check_from_pkg(d, pkg_ok, 0)
    } else if remote_entry_error(d, i) is Some {
        remote_entry_error(d, i)
    } else {
        check_from_remote(d, pkg_ok, i + 1)
    }
}

/// The outcome of the dependency validator: the first violation in visit
/// order, or `None` when the collection is consistent and every probe
/// succeeded.
pub open spec fn dep_check_model(d: Dependencies, pkg_ok: Seq<bool>) -> Option<ErrorModel> {
    check_from_remote(d, pkg_ok, 0)
}

impl Dependencies {
    /// Whether remote entries `a` and `b` share their (source, version)
    /// composite key.
    fn remote_key_matches(a: &RemoteDependency, b: &RemoteDependency) -> (same: bool)
        ensures
            same == (remote_key(*a) == remote_key(*b)),
    {
        if !(a.source.value == b.source.value) {
            return false;
        }
        match (&a.version, &b.version) {
            (None, None) => true,
            (Some(x), Some(y)) => x.value == y.value,
            _ => false,
        }
    }

    /// The first remote entry before `i` sharing entry `i`'s composite key.
    fn find_prev_remote_key(&self, i: usize) -> (found: Option<usize>)
        requires
            (i as int) < self.remote@.len(),
        ensures
            match found {
                Some(j) => (j as int) == first_remote_key(
                    self.remote@,
                    remote_key(self.remote@[i as int].value),
                    0,
                    i as int,
                ) && (j as int) < i as int,
                None => first_remote_key(
                    self.remote@,
                    remote_key(self.remote@[i as int].value),
                    0,
                    i as int,
                ) == i as int,
            },
    {
        let mut j: usize = 0;
        while j < i
            invariant
                j <= i,
                (i as int) < self.remote@.len(),
                first_remote_key(
                    self.remote@,
                    remote_key(self.remote@[i as int].value),
                    0,
                    i as int,
                ) == first_remote_key(
                    self.remote@,
                    remote_key(self.remote@[i as int].value),
                    j as int,
                    i as int,
                ),
            decreases i - j,
        {
            if Self::remote_key_matches(&self.remote[j].value, &self.remote[i].value) {
                return Some(j);
            }
            j = j + 1;
        }
        None
    }

    /// The first remote entry before `i` declaring the include name `inc`.
    fn find_prev_include(&self, i: usize, inc: &String) -> (found: Option<usize>)
        requires
            (i as int) <= self.remote@.len(),
        ensures
            match found {
                Some(j) => (j as int) == first_remote_include(self.remote@, inc@, 0, i as int)
                    && (j as int) < i as int,
                None => first_remote_include(self.remote@, inc@, 0, i as int) == i as int,
            },
    {
        let mut j: usize = 0;
        while j < i
            invariant
                j <= i,
                (i as int) <= self.remote@.len(),
                first_remote_include(self.remote@, inc@, 0, i as int) == first_remote_include(
                    self.remote@,
                    inc@,
                    j as int,
                    i as int,
                ),
            decreases i - j,
        {
            if let Some(prev_inc) = &self.remote[j].value.include_name {
                if prev_inc.value == *inc {
                    return Some(j);
                }
            }
            j = j + 1;
        }
        None
    }

    /// Validates the whole collection: visits every dependency exactly once
    /// (remote, then pkg-config, then manual, each in declaration order) and
    /// returns the first violation found, or `Ok` when names are unique
    /// across all categories, no two remote entries share a (source,
    /// version) pair, declared include names are unique among remotes, the
    /// build-method field rules hold, and every pkg-config probe succeeded.
    ///
    /// `pkg_ok[k]` reports whether the external package-discovery probe
    /// found the `k`-th pkg-config entry; a missing outcome counts as not
    /// found.
    pub fn check_dependencies(&self, pkg_ok: &Vec<bool>) -> (outcome: Result<(), Error>)
        ensures
            match outcome {
                Ok(()) => dep_check_model(*self, pkg_ok@) is None,
                Err(e) => Some(e@) == dep_check_model(*self, pkg_ok@),
            },
    {
        let mut i: usize = 0;
        while i < self.remote.len()
            invariant
                i <= self.remote@.len(),
                dep_check_model(*self, pkg_ok@) == check_from_remote(*self, pkg_ok@, i as int),
            decreases self.remote@.len() - i,
        {
            let r = &self.remote[i];
            if let Some(j) = self.find_prev_remote_key(i) {
                return Err(
                    Error::with_info(
                        ErrorType::DuplicateDependencySource,
                        String::from_str("Duplicate dependency url with same versions"),
                        r.value.source.span,
                        self.remote[j].value.source.span,
                        String::from_str("Previously defined here"),
                    ),
                );
            }
            if let Some(prev) = self.find_prev_name(&r.value.name.value, i, 0, 0) {
                return Err(
                    Error::with_info(
                        ErrorType::DuplicateDependencyName,
                        String::from_str("Duplicate dependency name"),
                        r.value.name.span,
                        prev,
                        String::from_str("Previously defined here"),
                    ),
                );
            }
            if let Some(inc) = &r.value.include_name {
                if let Some(j) = self.find_prev_include(i, &inc.value) {
                    let prev_span = match &self.remote[j].value.include_name {
                        Some(prev_inc) => prev_inc.span,
                        None => inc.span,
                    };
                    return Err(
                        Error::with_info(
                            ErrorType::DuplicateDependencyIncludeName,
                            String::from_str("Duplicate dependency include name"),
                            inc.span,
                            prev_span,
                            String::from_str("Previously defined here"),
                        ),
                    );
                }
            }
            if let Some(method) = &r.value.build_method {
                if *method == RemoteBuildMethod::Custom {
                    if r.value.build_command.is_none() {
                        return Err(
                            Error::new(
                                ErrorType::CustomBuildMissing,
                                String::from_str("Custom build method missing build_command"),
                                r.span,
                            ),
                        );
                    }
                } else if let Some(bo) = &r.value.build_output {
                    return Err(
                        Error::new(
                            ErrorType::ExtraFieldNonCustomBuild,
                            String::from_str("Non-Custom build method has build_output"),
                            bo.span,
                        ),
                    );
                } else if let Some(bc) = &r.value.build_command {
                    return Err(
                        Error::new(
                            ErrorType::ExtraFieldNonCustomBuild,
                            String::from_str("non-Custom build method has build_command"),
                            bc.span,
                        ),
                    );
                }
            }
            assert(remote_entry_error(*self, i as int) is None);
            i = i + 1;
        }
        let mut k: usize = 0;
        while k < self.pkg_config.len()
            invariant
                k <= self.pkg_config@.len(),
                dep_check_model(*self, pkg_ok@) == check_from_pkg(*self, pkg_ok@, k as int),
            decreases self.pkg_config@.len() - k,
        {
            let p = &self.pkg_config[k];
            if let Some(prev) = self.find_prev_name(
                &p.value.name.value,
                self.remote.len(),
                k,
                0,
            ) {
                return Err(
                    Error::with_info(
                        ErrorType::DuplicateDependencyName,
                        String::from_str("Duplicate dependency name"),
                        p.value.name.span,
                        prev,
                        String::from_str("Previously defined here"),
                    ),
                );
            }
            let found = if k < pkg_ok.len() {
                pkg_ok[k]
            } else {
                false
            };
            if !found {
                return Err(
                    Error::new(
                        ErrorType::InvalidPkgConfigQuery,
                        String::from_str("Pkg-config dependency not found"),
                        p.value.pkg_config_query.span,
                    ),
                );
            }
            assert(pkg_entry_error(*self, pkg_ok@, k as int) is None);
            k = k + 1;
        }
        let mut m: usize = 0;
        while m < self.manual.len()
            invariant
                m <= self.manual@.len(),
                dep_check_model(*self, pkg_ok@) == check_from_manual(*self, m as int),
            decreases self.manual@.len() - m,
        {
            let entry = &self.manual[m];
            if let Some(prev) = self.find_prev_name(
                &entry.value.name.value,
                self.remote.len(),
                self.pkg_config.len(),
                m,
            ) {
                return Err(
                    Error::with_info(
                        ErrorType::DuplicateDependencyName,
                        String::from_str("Duplicate dependency name"),
                        entry.value.name.span,
                        prev,
                        String::from_str("Previously defined here"),
                    ),
                );
            }
            assert(manual_entry_error(*self, m as int) is None);
            m = m + 1;
        }
        Ok(())
    }
}

} // verus!

verus! {

/// Whether no two dependencies, of any categories, share a name.
pub open spec fn dep_names_unique(d: Dependencies) -> bool {
    forall|t1: int, t2: int|
        0 <= t1 < t2 < dep_count(d) ==> dep_name_at(d, t1).value@ != dep_name_at(d, t2).value@
}

/// Whether no two remote dependencies share a (source, version) pair.
pub open spec fn remote_sources_unique(d: Dependencies) -> bool {
    forall|i: int, j: int|
        0 <= i < j < d.remote@.len() ==> remote_key(d.remote@[i].value) != remote_key(
            d.remote@[j].value,
        )
}

/// The declared include name of a remote dependency, if any, as a
/// mathematical string.
pub open spec fn include_name_of(r: RemoteDependency) -> Option<Seq<char>> {
    match r.include_name {
        Some(inc) => Some(inc.value@),
        None => None,
    }
}

/// Whether no two remote dependencies declare the same include name.
pub open spec fn remote_includes_unique(d: Dependencies) -> bool {
    forall|i: int, j: int|
        0 <= i < j < d.remote@.len() && #[trigger] include_name_of(d.remote@[i].value) is Some
            ==> include_name_of(d.remote@[i].value) != #[trigger] include_name_of(
            d.remote@[j].value,
        )
}

/// Whether a remote dependency's build fields agree with its build method:
/// a custom method requires a build command, any other declared method
/// forbids both the build command and the build output.
pub open spec fn remote_build_fields_ok(r: RemoteDependency) -> bool {
    match r.build_method {
        Some(m) => if m is Custom {
            r.build_command is Some
        } else {
            r.build_command is None && r.build_output is None
        },
        None => true,
    }
}

/// Whether the dependency collection is internally consistent and every
/// pkg-config probe succeeded: exactly the inputs the validator accepts.
pub open spec fn deps_wf(d: Dependencies, pkg_ok: Seq<bool>) -> bool {
    &&& dep_names_unique(d)
    &&& remote_sources_unique(d)
    &&& remote_includes_unique(d)
    &&& forall|i: int| 0 <= i < d.remote@.len() ==> remote_build_fields_ok(#[trigger] d.remote@[i].value)
    &&& forall|k: int| 0 <= k < d.pkg_config@.len() ==> probe_ok(pkg_ok, k)
}

/// `first_remote_key` returns the least matching index in `[from, upto)`,
/// and `upto` exactly when there is no match.
proof fn lemma_first_remote_key(
    rs: Seq<Positioned<RemoteDependency>>,
    key: (Seq<char>, Option<Seq<char>>),
    from: int,
    upto: int,
)
    requires
        0 <= from <= upto,
    ensures
        from <= first_remote_key(rs, key, from, upto) <= upto,
        first_remote_key(rs, key, from, upto) < upto ==> remote_key(
            rs[first_remote_key(rs, key, from, upto)].value,
        ) == key,
        forall|j: int|
            from <= j < first_remote_key(rs, key, from, upto) && j < upto ==> remote_key(
                #[trigger] rs[j].value,
            ) != key,
    decreases upto - from,
{
    if from < upto && remote_key(rs[from].value) != key {
        lemma_first_remote_key(rs, key, from + 1, upto);
    }
}

/// `first_remote_include` returns the least matching index in `[from,
/// upto)`, and `upto` exactly when there is no match.
proof fn lemma_first_remote_include(
    rs: Seq<Positioned<RemoteDependency>>,
    name: Seq<char>,
    from: int,
    upto: int,
)
    requires
        0 <= from <= upto,
    ensures
        from <= first_remote_include(rs, name, from, upto) <= upto,
        first_remote_include(rs, name, from, upto) < upto ==> (rs[first_remote_include(
            rs,
            name,
            from,
            upto,
        )].value.include_name matches Some(inc) && inc.value@ == name),
        forall|j: int|
            from <= j < first_remote_include(rs, name, from, upto) && j < upto ==> !(
            #[trigger] rs[j].value.include_name matches Some(inc) && inc.value@ == name),
    decreases upto - from,
{
    if from < upto && !(rs[from].value.include_name matches Some(inc) && inc.value@ == name) {
        lemma_first_remote_include(rs, name, from + 1, upto);
    }
}

/// The remote duplicate-name check at entry `i` passes exactly when no
/// dependency visited before entry `i` shares its name.
proof fn lemma_dup_name_remote_none_iff(d: Dependencies, i: int)
    requires
        0 <= i < d.remote@.len(),
    ensures
        dup_name_error_remote(d, i) is None <==> forall|t: int|
            0 <= t < i ==> dep_name_at(d, t).value@ != d.remote@[i].value.name.value@,
{
    let name = d.remote@[i].value.name.value@;
    lemma_first_remote_name(d.remote@, name, 0, i);
    let jr = first_remote_name(d.remote@, name, 0, i);
    if jr < i {
        assert(dep_name_at(d, jr).value@ == name);
    } else {
        assert forall|t: int| 0 <= t < i implies dep_name_at(d, t).value@ != name by {
            assert(d.remote@[t].value.name.value@ != name);
        }
    }
}

/// The pkg-config duplicate-name check at entry `k` passes exactly when no
/// dependency visited before it shares its name.
proof fn lemma_dup_name_pkg_none_iff(d: Dependencies, k: int)
    requires
        0 <= k < d.pkg_config@.len(),
    ensures
        dup_name_error_pkg(d, k) is None <==> forall|t: int|
            0 <= t < d.remote@.len() + k ==> dep_name_at(d, t).value@
                != d.pkg_config@[k].value.name.value@,
{
    let r = d.remote@.len() as int;
    let name = d.pkg_config@[k].value.name.value@;
    lemma_first_remote_name(d.remote@, name, 0, r);
    lemma_first_pkg_name(d.pkg_config@, name, 0, k);
    let jr = first_remote_name(d.remote@, name, 0, r);
    let jp = first_pkg_name(d.pkg_config@, name, 0, k);
    if jr < r {
        assert(dep_name_at(d, jr).value@ == name);
    } else if jp < k {
        assert(dep_name_at(d, r + jp).value@ == name);
    } else {
        assert forall|t: int| 0 <= t < r + k implies dep_name_at(d, t).value@ != name by {
            if t < r {
                assert(d.remote@[t].value.name.value@ != name);
            } else {
                assert(d.pkg_config@[t - r].value.name.value@ != name);
            }
        }
    }
}

/// The manual duplicate-name check at entry `m` passes exactly when no
/// dependency visited before it shares its name.
proof fn lemma_dup_name_manual_none_iff(d: Dependencies, m: int)
    requires
        0 <= m < d.manual@.len(),
    ensures
        dup_name_error_manual(d, m) is None <==> forall|t: int|
            0 <= t < d.remote@.len() + d.pkg_config@.len() + m ==> dep_name_at(d, t).value@
                != d.manual@[m].value.name.value@,
{
    let r = d.remote@.len() as int;
    let p = d.pkg_config@.len() as int;
    let name = d.manual@[m].value.name.value@;
    lemma_first_remote_name(d.remote@, name, 0, r);
    lemma_first_pkg_name(d.pkg_config@, name, 0, p);
    lemma_first_manual_name(d.manual@, name, 0, m);
    let jr = first_remote_name(d.remote@, name, 0, r);
    let jp = first_pkg_name(d.pkg_config@, name, 0, p);
    let jm = first_manual_name(d.manual@, name, 0, m);
    if jr < r {
        assert(dep_name_at(d, jr).value@ == name);
    } else if jp < p {
        assert(dep_name_at(d, r + jp).value@ == name);
    } else if jm < m {
        assert(dep_name_at(d, r + p + jm).value@ == name);
    } else {
        assert forall|t: int| 0 <= t < r + p + m implies dep_name_at(d, t).value@ != name by {
            if t < r {
                assert(d.remote@[t].value.name.value@ != name);
            } else if t < r + p {
                assert(d.pkg_config@[t - r].value.name.value@ != name);
            } else {
                assert(d.manual@[t - r - p].value.name.value@ != name);
            }
        }
    }
}

/// The validator's manual sweep from entry `m` on finds no violation exactly
/// when no remaining manual entry has one.
proof fn lemma_check_tail_manual(d: Dependencies, m: int)
    requires
        0 <= m <= d.manual@.len(),
    ensures
        check_from_manual(d, m) is None <==> forall|m2: int|
            m <= m2 < d.manual@.len() ==> manual_entry_error(d, m2) is None,
    decreases d.manual@.len() - m,
{
    if m < d.manual@.len() {
        lemma_check_tail_manual(d, m + 1);
    }
}

/// The validator's pkg-config sweep from entry `k` on finds no violation
/// exactly when no remaining pkg-config or manual entry has one.
proof fn lemma_check_tail_pkg(d: Dependencies, pkg_ok: Seq<bool>, k: int)
    requires
        0 <= k <= d.pkg_config@.len(),
    ensures
        check_from_pkg(d, pkg_ok, k) is None <==> ((forall|k2: int|
            k <= k2 < d.pkg_config@.len() ==> pkg_entry_error(d, pkg_ok, k2) is None)
            && check_from_manual(d, 0) is None),
    decreases d.pkg_config@.len() - k,
{
    if k < d.pkg_config@.len() {
        lemma_check_tail_pkg(d, pkg_ok, k + 1);
    }
}

/// The validator's remote sweep from entry `i` on finds no violation exactly
/// when no remaining entry of any category has one.
proof fn lemma_check_tail_remote(d: Dependencies, pkg_ok: Seq<bool>, i: int)
    requires
        0 <= i <= d.remote@.len(),
    ensures
        check_from_remote(d, pkg_ok, i) is None <==> ((forall|i2: int|
            i <= i2 < d.remote@.len() ==> remote_entry_error(d, i2) is None) && check_from_pkg(
            d,
            pkg_ok,
            0,
        ) is None),
    decreases d.remote@.len() - i,
{
    if i < d.remote@.len() {
        lemma_check_tail_remote(d, pkg_ok, i + 1);
    }
}

/// Completeness and soundness of the dependency validator: it accepts the
/// collection exactly when the collection is well-formed and every
/// pkg-config probe succeeded.
pub proof fn lemma_dep_check_complete(d: Dependencies, pkg_ok: Seq<bool>)
    ensures
        dep_check_model(d, pkg_ok) is None <==> deps_wf(d, pkg_ok),
{
    let r = d.remote@.len() as int;
    let p = d.pkg_config@.len() as int;
    let m = d.manual@.len() as int;
    lemma_check_tail_remote(d, pkg_ok, 0);
    lemma_check_tail_pkg(d, pkg_ok, 0);
    lemma_check_tail_manual(d, 0);
    if dep_check_model(d, pkg_ok) is None {
        assert forall|t1: int, t2: int|
            0 <= t1 < t2 < dep_count(d) implies dep_name_at(d, t1).value@ != dep_name_at(
            d,
            t2,
        ).value@ by {
            if t2 < r {
                assert(remote_entry_error(d, t2) is None);
                lemma_dup_name_remote_none_iff(d, t2);
                assert(dep_name_at(d, t2) == d.remote@[t2].value.name);
                assert(dep_name_at(d, t1).value@ != d.remote@[t2].value.name.value@);
            } else if t2 < r + p {
                assert(pkg_entry_error(d, pkg_ok, t2 - r) is None);
                lemma_dup_name_pkg_none_iff(d, t2 - r);
                assert(dep_name_at(d, t2) == d.pkg_config@[t2 - r].value.name);
                assert(dep_name_at(d, t1).value@ != d.pkg_config@[t2 - r].value.name.value@);
            } else {
                assert(manual_entry_error(d, t2 - r - p) is None);
                lemma_dup_name_manual_none_iff(d, t2 - r - p);
                assert(dep_name_at(d, t2) == d.manual@[t2 - r - p].value.name);
                assert(dep_name_at(d, t1).value@ != d.manual@[t2 - r - p].value.name.value@);
            }
        }
        assert forall|i: int, j: int|
            0 <= i < j < r implies remote_key(d.remote@[i].value) != remote_key(
            d.remote@[j].value,
        ) by {
            assert(remote_entry_error(d, j) is None);
            lemma_first_remote_key(d.remote@, remote_key(d.remote@[j].value), 0, j);
        }
        assert forall|i: int, j: int|
            0 <= i < j < r && #[trigger] include_name_of(d.remote@[i].value) is Some
            implies include_name_of(d.remote@[i].value) != #[trigger] include_name_of(
            d.remote@[j].value,
        ) by {
            assert(remote_entry_error(d, j) is None);
            if let Some(b) = d.remote@[j].value.include_name {
                lemma_first_remote_include(d.remote@, b.value@, 0, j);
                assert(!(d.remote@[i].value.include_name matches Some(inc)
                    && inc.value@ == b.value@));
            }
        }
        assert forall|i: int| 0 <= i < r implies remote_build_fields_ok(
            #[trigger] d.remote@[i].value,
        ) by {
            assert(remote_entry_error(d, i) is None);
        }
        assert forall|k: int| 0 <= k < p implies probe_ok(pkg_ok, k) by {
            assert(pkg_entry_error(d, pkg_ok, k) is None);
        }
    }
    if deps_wf(d, pkg_ok) {
        assert forall|i2: int| 0 <= i2 < r implies remote_entry_error(d, i2) is None by {
            lemma_first_remote_key(d.remote@, remote_key(d.remote@[i2].value), 0, i2);
            let jk = first_remote_key(d.remote@, remote_key(d.remote@[i2].value), 0, i2);
            assert(jk == i2) by {
                if jk < i2 {
                    assert(remote_key(d.remote@[jk].value) == remote_key(d.remote@[i2].value));
                }
            }
            lemma_dup_name_remote_none_iff(d, i2);
            assert forall|t: int| 0 <= t < i2 implies dep_name_at(d, t).value@
                != d.remote@[i2].value.name.value@ by {
                assert(dep_name_at(d, t) == d.remote@[t].value.name);
                assert(dep_name_at(d, i2) == d.remote@[i2].value.name);
            }
            if let Some(inc) = d.remote@[i2].value.include_name {
                lemma_first_remote_include(d.remote@, inc.value@, 0, i2);
                let ji = first_remote_include(d.remote@, inc.value@, 0, i2);
                assert(ji == i2) by {
                    if ji < i2 {
                        assert(include_name_of(d.remote@[ji].value) is Some);
                        assert(include_name_of(d.remote@[ji].value) == include_name_of(
                            d.remote@[i2].value,
                        ));
                    }
                }
            }
        }
        assert forall|k2: int| 0 <= k2 < p implies pkg_entry_error(d, pkg_ok, k2) is None by {
            lemma_dup_name_pkg_none_iff(d, k2);
            assert forall|t: int| 0 <= t < r + k2 implies dep_name_at(d, t).value@
                != d.pkg_config@[k2].value.name.value@ by {
                assert(dep_name_at(d, r + k2) == d.pkg_config@[k2].value.name);
            }
        }
        assert forall|m2: int| 0 <= m2 < m implies manual_entry_error(d, m2) is None by {
            lemma_dup_name_manual_none_iff(d, m2);
            assert forall|t: int| 0 <= t < r + p + m2 implies dep_name_at(d, t).value@
                != d.manual@[m2].value.name.value@ by {
                assert(dep_name_at(d, r + p + m2) == d.manual@[m2].value.name);
            }
        }
    }
}

} // verus!

verus! {

/// Every violation the manual sweep can report is a duplicate name.
proof fn lemma_kind_manual(d: Dependencies, m: int)
    requires
        0 <= m <= d.manual@.len(),
    ensures
        check_from_manual(d, m) matches Some(e) ==> e.error_type
            == ErrorType::DuplicateDependencyName,
    decreases d.manual@.len() - m,
{
    if m < d.manual@.len() {
        lemma_kind_manual(d, m + 1);
    }
}

/// With every probe succeeding, every violation the pkg-config sweep can
/// report is a duplicate name.
proof fn lemma_kind_pkg(d: Dependencies, pkg_ok: Seq<bool>, k: int)
    requires
        0 <= k <= d.pkg_config@.len(),
        forall|k2: int| 0 <= k2 < d.pkg_config@.len() ==> probe_ok(pkg_ok, k2),
    ensures
        check_from_pkg(d, pkg_ok, k) matches Some(e) ==> e.error_type
            == ErrorType::DuplicateDependencyName,
    decreases d.pkg_config@.len() - k,
{
    if k < d.pkg_config@.len() {
        lemma_kind_pkg(d, pkg_ok, k + 1);
    } else {
        lemma_kind_manual(d, 0);
    }
}

/// With sources unique, include names unique, build fields consistent and
/// every probe succeeding, every violation the validator can report is a
/// duplicate name.
proof fn lemma_kind_remote(d: Dependencies, pkg_ok: Seq<bool>, i: int)
    requires
        0 <= i <= d.remote@.len(),
        forall|i2: int|
            i <= i2 < d.remote@.len() ==> #[trigger] dup_source_error(d, i2) is None
                && dup_include_error(d, i2) is None && build_method_error(d, i2) is None,
        forall|k2: int| 0 <= k2 < d.pkg_config@.len() ==> probe_ok(pkg_ok, k2),
    ensures
        check_from_remote(d, pkg_ok, i) matches Some(e) ==> e.error_type
            == ErrorType::DuplicateDependencyName,
    decreases d.remote@.len() - i,
{
    if i < d.remote@.len() {
        lemma_kind_remote(d, pkg_ok, i + 1);
    } else {
        lemma_kind_pkg(d, pkg_ok, 0);
    }
}

/// Law (uniqueness enforcement, names): two dependencies of any category —
/// or mixed categories — sharing a name are rejected with
/// `DuplicateDependencyName`, provided no other kind of violation is present
/// to be reported first.
pub proof fn lemma_duplicate_name_rejected(d: Dependencies, pkg_ok: Seq<bool>, t1: int, t2: int)
    requires
        0 <= t1 < t2 < dep_count(d),
        dep_name_at(d, t1).value@ == dep_name_at(d, t2).value@,
        remote_sources_unique(d),
        remote_includes_unique(d),
        forall|i: int|
            0 <= i < d.remote@.len() ==> remote_build_fields_ok(#[trigger] d.remote@[i].value),
        forall|k: int| 0 <= k < d.pkg_config@.len() ==> probe_ok(pkg_ok, k),
    ensures
        dep_check_model(d, pkg_ok) matches Some(e) && e.error_type
            == ErrorType::DuplicateDependencyName,
{
    let r = d.remote@.len() as int;
    assert forall|i2: int|
        0 <= i2 < r implies #[trigger] dup_source_error(d, i2) is None && dup_include_error(
        d,
        i2,
    ) is None && build_method_error(d, i2) is None by {
        lemma_first_remote_key(d.remote@, remote_key(d.remote@[i2].value), 0, i2);
        let jk = first_remote_key(d.remote@, remote_key(d.remote@[i2].value), 0, i2);
        if jk < i2 {
            assert(remote_key(d.remote@[jk].value) == remote_key(d.remote@[i2].value));
            assert(false);
        }
        if let Some(inc) = d.remote@[i2].value.include_name {
            lemma_first_remote_include(d.remote@, inc.value@, 0, i2);
            let ji = first_remote_include(d.remote@, inc.value@, 0, i2);
            if ji < i2 {
                assert(include_name_of(d.remote@[ji].value) is Some);
                assert(include_name_of(d.remote@[ji].value) == include_name_of(
                    d.remote@[i2].value,
                ));
                assert(false);
            }
        }
        assert(remote_build_fields_ok(d.remote@[i2].value));
    }
    lemma_dep_check_complete(d, pkg_ok);
    assert(dep_check_model(d, pkg_ok) is Some) by {
        if dep_check_model(d, pkg_ok) is None {
            assert(dep_name_at(d, t1).value@ != dep_name_at(d, t2).value@);
        }
    }
    lemma_kind_remote(d, pkg_ok, 0);
}

/// A violation at remote entry `j` is reported: the sweep from any earlier
/// entry finds some violation.
proof fn lemma_remote_error_reported(d: Dependencies, pkg_ok: Seq<bool>, i: int, j: int)
    requires
        0 <= i <= j < d.remote@.len(),
        remote_entry_error(d, j) is Some,
    ensures
        check_from_remote(d, pkg_ok, i) is Some,
    decreases j - i,
{
    if i < j && remote_entry_error(d, i) is None {
        lemma_remote_error_reported(d, pkg_ok, i + 1, j);
    }
}

/// With names unique, include names unique and build fields consistent,
/// every violation the remote sweep can report is a duplicate source.
proof fn lemma_kind_remote_source(d: Dependencies, pkg_ok: Seq<bool>, i: int, j: int)
    requires
        0 <= i <= j < d.remote@.len(),
        remote_entry_error(d, j) is Some,
        forall|i2: int|
            i <= i2 < d.remote@.len() ==> #[trigger] dup_name_error_remote(d, i2) is None
                && dup_include_error(d, i2) is None && build_method_error(d, i2) is None,
    ensures
        check_from_remote(d, pkg_ok, i) matches Some(e) && e.error_type
            == ErrorType::DuplicateDependencySource,
    decreases j - i,
{
    if remote_entry_error(d, i) is Some {
        assert(dup_source_error(d, i) is Some);
    } else {
        lemma_kind_remote_source(d, pkg_ok, i + 1, j);
    }
}

/// Law (uniqueness enforcement, sources): two remote dependencies with the
/// same source and version are rejected with `DuplicateDependencySource`,
/// provided no other kind of violation is present to be reported first.
pub proof fn lemma_duplicate_source_rejected(d: Dependencies, pkg_ok: Seq<bool>, i: int, j: int)
    requires
        0 <= i < j < d.remote@.len(),
        remote_key(d.remote@[i].value) == remote_key(d.remote@[j].value),
        dep_names_unique(d),
        remote_includes_unique(d),
        forall|i2: int|
            0 <= i2 < d.remote@.len() ==> remote_build_fields_ok(#[trigger] d.remote@[i2].value),
    ensures
        dep_check_model(d, pkg_ok) matches Some(e) && e.error_type
            == ErrorType::DuplicateDependencySource,
{
    let r = d.remote@.len() as int;
    assert forall|i2: int|
        0 <= i2 < r implies #[trigger] dup_name_error_remote(d, i2) is None && dup_include_error(
        d,
        i2,
    ) is None && build_method_error(d, i2) is None by {
        lemma_dup_name_remote_none_iff(d, i2);
        assert forall|t: int| 0 <= t < i2 implies dep_name_at(d, t).value@
            != d.remote@[i2].value.name.value@ by {
            assert(dep_name_at(d, i2) == d.remote@[i2].value.name);
            assert(dep_name_at(d, t).value@ != dep_name_at(d, i2).value@);
        }
        if let Some(inc) = d.remote@[i2].value.include_name {
            lemma_first_remote_include(d.remote@, inc.value@, 0, i2);
            let ji = first_remote_include(d.remote@, inc.value@, 0, i2);
            if ji < i2 {
                assert(include_name_of(d.remote@[ji].value) is Some);
                assert(include_name_of(d.remote@[ji].value) == include_name_of(
                    d.remote@[i2].value,
                ));
                assert(false);
            }
        }
        assert(remote_build_fields_ok(d.remote@[i2].value));
    }
    assert(remote_entry_error(d, j) is Some) by {
        lemma_first_remote_key(d.remote@, remote_key(d.remote@[j].value), 0, j);
        let jk = first_remote_key(d.remote@, remote_key(d.remote@[j].value), 0, j);
        if jk == j {
            assert(remote_key(d.remote@[i].value) != remote_key(d.remote@[j].value));
        }
    }
    lemma_kind_remote_source(d, pkg_ok, 0, j);
}

} // verus!
