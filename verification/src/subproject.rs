//! Subprojects and the subproject graph resolver.
//!
//! Three ordered phases, each depending on the previous succeeding: names
//! must be unique (collecting the linkable name set on the way); every
//! declared dependency reference must resolve to a declared dependency or a
//! linkable subproject; and the subproject reference graph must be acyclic,
//! in which case the subprojects are returned permuted into build order,
//! dependencies first.

use vstd::prelude::*;
use vstd::string::StringExecFns;

use crate::dependencies::{has_dep_name, Dependencies};
use crate::error::{Error, ErrorModel, ErrorType, InfoModel};
use crate::graph;
use crate::graph::{build_order_model, child, first_pos, is_cycle, wf_graph};
use crate::positioned::Positioned;

verus! {

/// What a subproject builds into.
#[derive(Clone, Copy, Debug, PartialEq, Eq, Structural)]
pub enum SubProjectType {
    Binary,
    Library,
    HeaderOnly,
}

/// A dependency reference: a bare name, or a detailed form naming the
/// imports wanted from it.
#[derive(Clone, Debug)]
pub enum SubProjectDependency {
    Named(String),
    Detailed { name: String, imports: Option<Vec<String>> },
}

/// One subproject of the configuration.
#[derive(Clone, Debug)]
pub struct SubProject {
    pub name: Positioned<String>,
    pub kind: SubProjectType,
    pub src_dir: Option<String>,
    pub include_dirs: Option<Vec<String>>,
    pub dependencies: Option<Vec<Positioned<SubProjectDependency>>>,
}

/// The name a dependency reference refers to.
pub open spec fn dep_ref_name(d: SubProjectDependency) -> Seq<char> {
    match d {
        SubProjectDependency::Named(n) => n@,
        SubProjectDependency::Detailed { name, .. } => name@,
    }
}

/// A subproject's dependency references, empty when none are declared.
pub open spec fn sub_deps(s: SubProject) -> Seq<Positioned<SubProjectDependency>> {
    match s.dependencies {
        Some(v) => v@,
        None => Seq::empty(),
    }
}

/// Whether a subproject may itself be referenced as a dependency.
pub open spec fn is_linkable(s: SubProject) -> bool {
    s.kind is Library || s.kind is HeaderOnly
}

/// Whether no two subprojects share a name.
pub open spec fn sub_names_distinct(subs: Seq<SubProject>) -> bool {
    forall|i: int, j: int|
        0 <= i < j < subs.len() ==> subs[i].name.value@ != subs[j].name.value@
}

/// The least `j` with `from <= j < upto` whose subproject is named `name`,
/// or `upto` if there is none.
pub open spec fn first_sub_name(subs: Seq<SubProject>, name: Seq<char>, from: int, upto: int) -> int
    decreases upto - from,
{
    if from < 0 || from >= upto {
        upto
    } else if subs[from].name.value@ == name {
        from
    } else {
        first_sub_name(subs, name, from + 1, upto)
    }
}

/// `first_sub_name` returns the least matching index in `[from, upto)`, and
/// `upto` exactly when there is no match.
pub proof fn lemma_first_sub_name(subs: Seq<SubProject>, name: Seq<char>, from: int, upto: int)
    requires
        0 <= from <= upto,
    ensures
        from <= first_sub_name(subs, name, from, upto) <= upto,
        first_sub_name(subs, name, from, upto) < upto ==> subs[first_sub_name(
            subs,
            name,
            from,
            upto,
        )].name.value@ == name,
        forall|j: int|
            from <= j < first_sub_name(subs, name, from, upto) && j < upto ==> subs[
                j].name.value@ != name,
    decreases upto - from,
{
    if from < upto && subs[from].name.value@ != name {
        lemma_first_sub_name(subs, name, from + 1, upto);
    }
}

/// The names of the linkable subprojects among the first `upto`, in
/// declaration order: the linkable name set.
pub open spec fn lib_names_prefix(subs: Seq<SubProject>, upto: int) -> Seq<Seq<char>>
    decreases upto,
{
    if upto <= 0 {
        Seq::empty()
    } else {
        lib_names_prefix(subs, upto - 1) + (if is_linkable(subs[upto - 1]) {
            seq![subs[upto - 1].name.value@]
        } else {
            Seq::empty()
        })
    }
}

/// The linkable name set of the whole subproject list.
pub open spec fn lib_names(subs: Seq<SubProject>) -> Seq<Seq<char>> {
    lib_names_prefix(subs, subs.len() as int)
}

/// The duplicate-name violation of subproject `i`, if any.
pub open spec fn sub_dup_at(subs: Seq<SubProject>, i: int) -> Option<ErrorModel> {
    let name = subs[i].name;
    let j = first_sub_name(subs, name.value@, 0, i);
    if j < i {
        Some(
            ErrorModel {
                error_type: ErrorType::DuplicateSubprojectName,
                message: "Duplicate subproject name: "@ + name.value@,
                span: Some(name.span),
                additional_info: Some(
                    InfoModel {
                        span: subs[j].name.span,
                        message: "Previous subproject with same name: "@ + name.value@,
                    },
                ),
            },
        )
    } else {
        None
    }
}

/// The first duplicate-name violation among subprojects `i` and later.
pub open spec fn sub_dup_from(subs: Seq<SubProject>, i: int) -> Option<ErrorModel>
    decreases subs.len() - i,
{
    if i < 0 || i >= subs.len() {
        None
    } else if sub_dup_at(subs, i) is Some {
        sub_dup_at(subs, i)
    } else {
        sub_dup_from(subs, i + 1)
    }
}

/// The outcome of the duplicate-name check: the first violation in
/// declaration order, or `None` when all names are unique.
pub open spec fn sub_dup_model(subs: Seq<SubProject>) -> Option<ErrorModel> {
    sub_dup_from(subs, 0)
}

/// The duplicate-name check accepts exactly the lists with pairwise
/// distinct names.
pub proof fn lemma_sub_dup_complete(subs: Seq<SubProject>)
    ensures
        sub_dup_model(subs) is None <==> sub_names_distinct(subs),
{
    lemma_sub_dup_from_iff(subs, 0);
    if sub_dup_model(subs) is None {
        assert forall|i: int, j: int|
            0 <= i < j < subs.len() implies subs[i].name.value@ != subs[j].name.value@ by {
            assert(sub_dup_at(subs, j) is None);
            lemma_first_sub_name(subs, subs[j].name.value@, 0, j);
        }
    } else {
        let i = choose|i: int|
            0 <= i < subs.len() && #[trigger] sub_dup_at(subs, i) is Some;
        lemma_first_sub_name(subs, subs[i].name.value@, 0, i);
        let j = first_sub_name(subs, subs[i].name.value@, 0, i);
        assert(j < i);
        assert(subs[j].name.value@ == subs[i].name.value@);
    }
}

/// The sweep from `i` on finds no duplicate exactly when no later
/// subproject has one.
proof fn lemma_sub_dup_from_iff(subs: Seq<SubProject>, i: int)
    requires
        0 <= i <= subs.len(),
    ensures
        sub_dup_from(subs, i) is None <==> forall|i2: int|
            i <= i2 < subs.len() ==> #[trigger] sub_dup_at(subs, i2) is None,
    decreases subs.len() - i,
{
    if i < subs.len() {
        lemma_sub_dup_from_iff(subs, i + 1);
    }
}

impl SubProject {
    /// Rejects the first pair of subprojects sharing a name; otherwise
    /// returns the linkable name set: the names of the subprojects of
    /// library or header-only kind, in declaration order.
    pub fn check_duplicate_names(selfs: &Vec<SubProject>) -> (outcome: Result<Vec<String>, Error>)
        ensures
            match outcome {
                Ok(libs) => {
                    &&& sub_dup_model(selfs@) is None
                    &&& libs@.map_values(|s: String| s@) == lib_names(selfs@)
                },
                Err(e) => Some(e@) == sub_dup_model(selfs@),
            },
    {
        let mut libs: Vec<String> = Vec::new();
        let mut i: usize = 0;
        while i < selfs.len()
            invariant
                i <= selfs@.len(),
                sub_dup_model(selfs@) == sub_dup_from(selfs@, i as int),
                libs@.map_values(|s: String| s@) == lib_names_prefix(selfs@, i as int),
            decreases selfs@.len() - i,
        {
            let current = &selfs[i];
            let mut j: usize = 0;
            while j < i
                invariant
                    j <= i < selfs@.len(),
                    sub_dup_model(selfs@) == sub_dup_from(selfs@, i as int),
                    first_sub_name(selfs@, current.name.value@, 0, i as int) == first_sub_name(
                        selfs@,
                        current.name.value@,
                        j as int,
                        i as int,
                    ),
                    current == selfs@[i as int],
                decreases i - j,
            {
                if selfs[j].name.value == current.name.value {
                    let mut message = String::from_str("Duplicate subproject name: ");
                    message.append(current.name.value.as_str());
                    let mut info_message = String::from_str("Previous subproject with same name: ");
                    info_message.append(current.name.value.as_str());
                    return Err(
                        Error::with_info(
                            ErrorType::DuplicateSubprojectName,
                            message,
                            current.name.span,
                            selfs[j].name.span,
                            info_message,
                        ),
                    );
                }
                j = j + 1;
            }
            assert(sub_dup_at(selfs@, i as int) is None);
            match current.kind {
                SubProjectType::Library | SubProjectType::HeaderOnly => {
                    libs.push(current.name.value.clone());
                    assert(libs@.map_values(|s: String| s@) =~= lib_names_prefix(
                        selfs@,
                        i as int + 1,
                    ));
                },
                SubProjectType::Binary => {
                    assert(libs@.map_values(|s: String| s@) =~= lib_names_prefix(
                        selfs@,
                        i as int + 1,
                    ));
                },
            }
            i = i + 1;
        }
        Ok(libs)
    }
}

} // verus!

verus! {

/// Whether a reference to `name` resolves: a declared dependency of any
/// category, or a linkable subproject.
pub open spec fn ref_resolves(deps: Dependencies, libs: Seq<Seq<char>>, name: Seq<char>) -> bool {
    has_dep_name(deps, name) || libs.contains(name)
}

/// The unresolved-reference violation of reference `k` of subproject `i`,
/// if any.
pub open spec fn ref_err_at(
    subs: Seq<SubProject>,
    deps: Dependencies,
    libs: Seq<Seq<char>>,
    i: int,
    k: int,
) -> Option<ErrorModel> {
    let reference = sub_deps(subs[i])[k];
    if !ref_resolves(deps, libs, dep_ref_name(reference.value)) {
        Some(
            ErrorModel {
                error_type: ErrorType::InvalidSubprojectDependency,
                message: "Invalid dependency: "@ + dep_ref_name(reference.value),
                span: Some(reference.span),
                additional_info: None,
            },
        )
    } else {
        None
    }
}

/// The first unresolved reference at or after reference `k` of subproject
/// `i`, scanning subprojects and their references in declaration order.
pub open spec fn ref_check_from(
    subs: Seq<SubProject>,
    deps: Dependencies,
    libs: Seq<Seq<char>>,
    i: int,
    k: int,
) -> Option<ErrorModel>
    decreases subs.len() - i, sub_deps(subs[i]).len() - k,
{
    if i < 0 || i >= subs.len() {
        None
    } else if k < 0 || k >= sub_deps(subs[i]).len() {
        ref_check_from(subs, deps, libs, i + 1, 0)
    } else if ref_err_at(subs, deps, libs, i, k) is Some {
        ref_err_at(subs, deps, libs, i, k)
    } else {
        ref_check_from(subs, deps, libs, i, k + 1)
    }
}

/// The outcome of the reference-resolution check: the first unresolved
/// reference, or `None` when every reference resolves.
pub open spec fn ref_check_model(
    subs: Seq<SubProject>,
    deps: Dependencies,
    libs: Seq<Seq<char>>,
) -> Option<ErrorModel> {
    ref_check_from(subs, deps, libs, 0, 0)
}

/// The reference check accepts exactly the configurations in which every
/// reference of every subproject resolves.
pub proof fn lemma_ref_check_complete(subs: Seq<SubProject>, deps: Dependencies, libs: Seq<
    Seq<char>,
>)
    ensures
        ref_check_model(subs, deps, libs) is None <==> forall|i: int, k: int|
            0 <= i < subs.len() && 0 <= k < sub_deps(subs[i]).len() ==> ref_resolves(
                deps,
                libs,
                dep_ref_name((#[trigger] sub_deps(subs[i])[k]).value),
            ),
{
    lemma_ref_check_from_iff(subs, deps, libs, 0, 0);
    if ref_check_model(subs, deps, libs) is None {
        assert forall|i: int, k: int|
            0 <= i < subs.len() && 0 <= k < sub_deps(subs[i]).len() implies ref_resolves(
            deps,
            libs,
            dep_ref_name((#[trigger] sub_deps(subs[i])[k]).value),
        ) by {
            assert(ref_err_at(subs, deps, libs, i, k) is None);
        }
    } else {
        let (i, k) = choose|i: int, k: int|
            0 <= i < subs.len() && 0 <= k < sub_deps(subs[i]).len() && #[trigger] ref_err_at(
                subs,
                deps,
                libs,
                i,
                k,
            ) is Some;
    }
}

/// The sweep from `(i, k)` on finds no violation exactly when no remaining
/// reference has one.
proof fn lemma_ref_check_from_iff(
    subs: Seq<SubProject>,
    deps: Dependencies,
    libs: Seq<Seq<char>>,
    i: int,
    k: int,
)
    requires
        0 <= i <= subs.len(),
        0 <= k,
        i < subs.len() ==> k <= sub_deps(subs[i]).len(),
    ensures
        ref_check_from(subs, deps, libs, i, k) is None <==> forall|i2: int, k2: int|
            0 <= i2 < subs.len() && 0 <= k2 < sub_deps(subs[i2]).len() && (i2 > i || (i2 == i && k2
                >= k)) ==> #[trigger] ref_err_at(subs, deps, libs, i2, k2) is None,
    decreases subs.len() - i, if i < subs.len() { sub_deps(subs[i]).len() - k + 1 } else { 0 },
{
    if i >= subs.len() {
    } else if k >= sub_deps(subs[i]).len() {
        lemma_ref_check_from_iff(subs, deps, libs, i + 1, 0);
    } else {
        lemma_ref_check_from_iff(subs, deps, libs, i, k + 1);
    }
}

/// Every violation the reference check can report is an unresolved
/// reference.
pub proof fn lemma_ref_check_kind(
    subs: Seq<SubProject>,
    deps: Dependencies,
    libs: Seq<Seq<char>>,
    i: int,
    k: int,
)
    requires
        0 <= i <= subs.len(),
        0 <= k,
        i < subs.len() ==> k <= sub_deps(subs[i]).len(),
    ensures
        ref_check_from(subs, deps, libs, i, k) matches Some(e) ==> e.error_type
            == ErrorType::InvalidSubprojectDependency,
    decreases subs.len() - i, if i < subs.len() { sub_deps(subs[i]).len() - k + 1 } else { 0 },
{
    if i >= subs.len() {
    } else if k >= sub_deps(subs[i]).len() {
        lemma_ref_check_kind(subs, deps, libs, i + 1, 0);
    } else {
        lemma_ref_check_kind(subs, deps, libs, i, k + 1);
    }
}

/// Whether a name stands in the executable linkable name set.
fn contains_name(libs: &Vec<String>, name: &String) -> (present: bool)
    ensures
        present == libs@.map_values(|s: String| s@).contains(name@),
{
    let mut i: usize = 0;
    while i < libs.len()
        invariant
            i <= libs@.len(),
            forall|j: int| 0 <= j < i ==> #[trigger] libs@[j]@ != name@,
        decreases libs@.len() - i,
    {
        if libs[i] == *name {
            assert(libs@.map_values(|s: String| s@)[i as int] == name@);
            return true;
        }
        i = i + 1;
    }
    proof {
        let mapped = libs@.map_values(|s: String| s@);
        if mapped.contains(name@) {
            let j = choose|j: int| 0 <= j < mapped.len() && #[trigger] mapped[j] == name@;
            assert(libs@[j]@ == name@);
            assert(false);
        }
    }
    false
}

impl SubProject {
    /// Checks that every dependency reference of every subproject names a
    /// declared dependency or a linkable subproject; `lib_set` is the
    /// linkable name set collected by the duplicate-name check.
    pub fn check_subproject_dependencies(
        selfs: &Vec<SubProject>,
        dependencies: &Dependencies,
        lib_set: &Vec<String>,
    ) -> (outcome: Result<(), Error>)
        ensures
            match outcome {
                Ok(()) => ref_check_model(
                    selfs@,
                    *dependencies,
                    lib_set@.map_values(|s: String| s@),
                ) is None,
                Err(e) => Some(e@) == ref_check_model(
                    selfs@,
                    *dependencies,
                    lib_set@.map_values(|s: String| s@),
                ),
            },
    {
        let ghost libs = lib_set@.map_values(|s: String| s@);
        let mut i: usize = 0;
        while i < selfs.len()
            invariant
                i <= selfs@.len(),
                libs == lib_set@.map_values(|s: String| s@),
                ref_check_model(selfs@, *dependencies, libs) == ref_check_from(
                    selfs@,
                    *dependencies,
                    libs,
                    i as int,
                    0,
                ),
            decreases selfs@.len() - i,
        {
            let subproject = &selfs[i];
            if let Some(refs) = &subproject.dependencies {
                let mut k: usize = 0;
                while k < refs.len()
                    invariant
                        i < selfs@.len(),
                        k <= refs@.len(),
                        libs == lib_set@.map_values(|s: String| s@),
                        subproject == selfs@[i as int],
                        refs@ == sub_deps(selfs@[i as int]),
                        ref_check_model(selfs@, *dependencies, libs) == ref_check_from(
                            selfs@,
                            *dependencies,
                            libs,
                            i as int,
                            k as int,
                        ),
                    decreases refs@.len() - k,
                {
                    let reference = &refs[k];
                    let name: &String = match &reference.value {
                        SubProjectDependency::Named(n) => n,
                        SubProjectDependency::Detailed { name, .. } => name,
                    };
                    let resolved = dependencies.has_dependency(name.as_str()) || contains_name(
                        lib_set,
                        name,
                    );
                    if !resolved {
                        let mut message = String::from_str("Invalid dependency: ");
                        message.append(name.as_str());
                        return Err(
                            Error::new(
                                ErrorType::InvalidSubprojectDependency,
                                message,
                                reference.span,
                            ),
                        );
                    }
                    assert(ref_err_at(selfs@, *dependencies, libs, i as int, k as int) is None);
                    k = k + 1;
                }
                assert(ref_check_from(selfs@, *dependencies, libs, i as int, k as int)
                    == ref_check_from(selfs@, *dependencies, libs, i as int + 1, 0));
            } else {
                assert(sub_deps(selfs@[i as int]).len() == 0);
            }
            i = i + 1;
        }
        Ok(())
    }
}

} // verus!

verus! {

/// The graph edges contributed by the first `upto` dependency references of
/// subproject `i`: each reference naming another subproject becomes an edge
/// to that subproject's index; references to declared dependencies are
/// leaves and contribute none.
pub open spec fn edges_prefix(subs: Seq<SubProject>, i: int, upto: int) -> Seq<int>
    decreases upto,
{
    if upto <= 0 {
        Seq::empty()
    } else {
        edges_prefix(subs, i, upto - 1) + {
            let j = first_sub_name(
                subs,
                dep_ref_name(sub_deps(subs[i])[upto - 1].value),
                0,
                subs.len() as int,
            );
            if j < subs.len() {
                seq![j]
            } else {
                Seq::empty()
            }
        }
    }
}

/// The subproject reference graph: node `i` is subproject `i`, its children
/// the subprojects its references name, in declaration order.
pub open spec fn sub_graph(subs: Seq<SubProject>) -> Seq<Seq<int>> {
    Seq::new(subs.len(), |i: int| edges_prefix(subs, i, sub_deps(subs[i]).len() as int))
}

/// Every edge of `edges_prefix` points at a subproject.
proof fn lemma_edges_prefix_wf(subs: Seq<SubProject>, i: int, upto: int)
    ensures
        forall|t: int|
            0 <= t < edges_prefix(subs, i, upto).len() ==> 0 <= #[trigger] edges_prefix(
                subs,
                i,
                upto,
            )[t] < subs.len(),
    decreases upto,
{
    if upto > 0 {
        lemma_edges_prefix_wf(subs, i, upto - 1);
        lemma_first_sub_name(
            subs,
            dep_ref_name(sub_deps(subs[i])[upto - 1].value),
            0,
            subs.len() as int,
        );
        let pre = edges_prefix(subs, i, upto - 1);
        assert forall|t: int|
            0 <= t < edges_prefix(subs, i, upto).len() implies 0 <= #[trigger] edges_prefix(
            subs,
            i,
            upto,
        )[t] < subs.len() by {
            if t < pre.len() {
                assert(edges_prefix(subs, i, upto)[t] == pre[t]);
            } else {
                assert(edges_prefix(subs, i, upto)[t] == first_sub_name(
                    subs,
                    dep_ref_name(sub_deps(subs[i])[upto - 1].value),
                    0,
                    subs.len() as int,
                ));
            }
        }
    }
}

/// The subproject reference graph is well-formed.
pub proof fn lemma_sub_graph_wf(subs: Seq<SubProject>)
    ensures
        wf_graph(sub_graph(subs)),
        sub_graph(subs).len() == subs.len(),
{
    assert forall|u: int, j: int|
        0 <= u < sub_graph(subs).len() && 0 <= j < sub_graph(subs)[u].len() implies 0 <= #[trigger] sub_graph(
        subs,
    )[u][j] < sub_graph(subs).len() by {
        lemma_edges_prefix_wf(subs, u, sub_deps(subs[u]).len() as int);
    }
}

/// The index of the first subproject named `name`, if any is.
pub(crate) fn find_subproject_index(selfs: &Vec<SubProject>, name: &String) -> (found: Option<usize>)
    ensures
        match found {
            Some(j) => (j as int) == first_sub_name(selfs@, name@, 0, selfs@.len() as int) && (
            j as int) < selfs@.len(),
            None => first_sub_name(selfs@, name@, 0, selfs@.len() as int) == selfs@.len(),
        },
{
    let mut j: usize = 0;
    while j < selfs.len()
        invariant
            j <= selfs@.len(),
            first_sub_name(selfs@, name@, 0, selfs@.len() as int) == first_sub_name(
                selfs@,
                name@,
                j as int,
                selfs@.len() as int,
            ),
        decreases selfs@.len() - j,
    {
        if selfs[j].name.value == *name {
            return Some(j);
        }
        j = j + 1;
    }
    None
}

/// Builds the subproject reference graph as an adjacency list.
fn build_graph(selfs: &Vec<SubProject>) -> (g: Vec<Vec<usize>>)
    ensures
        graph::graph_view(g@) == sub_graph(selfs@),
{
    let mut g: Vec<Vec<usize>> = Vec::new();
    let mut i: usize = 0;
    while i < selfs.len()
        invariant
            i <= selfs@.len(),
            g@.len() == i,
            forall|i2: int|
                0 <= i2 < i ==> (#[trigger] g@[i2])@.map_values(|x: usize| x as int)
                    == edges_prefix(selfs@, i2, sub_deps(selfs@[i2]).len() as int),
        decreases selfs@.len() - i,
    {
        let mut row: Vec<usize> = Vec::new();
        if let Some(refs) = &selfs[i].dependencies {
            let mut k: usize = 0;
            while k < refs.len()
                invariant
                    i < selfs@.len(),
                    k <= refs@.len(),
                    refs@ == sub_deps(selfs@[i as int]),
                    row@.map_values(|x: usize| x as int) == edges_prefix(
                        selfs@,
                        i as int,
                        k as int,
                    ),
                decreases refs@.len() - k,
            {
                let name: &String = match &refs[k].value {
                    SubProjectDependency::Named(n) => n,
                    SubProjectDependency::Detailed { name, .. } => name,
                };
                if let Some(j) = find_subproject_index(selfs, name) {
                    row.push(j);
                    assert(row@.map_values(|x: usize| x as int) =~= edges_prefix(
                        selfs@,
                        i as int,
                        k as int + 1,
                    ));
                } else {
                    assert(row@.map_values(|x: usize| x as int) =~= edges_prefix(
                        selfs@,
                        i as int,
                        k as int + 1,
                    ));
                }
                k = k + 1;
            }
        } else {
            assert(row@.map_values(|x: usize| x as int) =~= edges_prefix(
                selfs@,
                i as int,
                sub_deps(selfs@[i as int]).len() as int,
            ));
        }
        g.push(row);
        i = i + 1;
    }
    proof {
        assert(graph::graph_view(g@) =~= sub_graph(selfs@));
    }
    g
}

/// Whether some earlier position of the order already claimed slot `j`.
pub open spec fn taken_before(ord: Seq<usize>, p: int, j: int) -> bool {
    exists|p2: int| 0 <= p2 < p && (#[trigger] ord[p2]) as int == j
}

/// Permutes the subprojects into the computed order, moving each exactly
/// once.
fn reorder(subs: Vec<SubProject>, ord: &Vec<usize>) -> (out: Vec<SubProject>)
    requires
        ord@.len() == subs@.len(),
        forall|p: int| 0 <= p < ord@.len() ==> ((#[trigger] ord@[p]) as int) < subs@.len(),
        forall|p: int, q: int| 0 <= p < q < ord@.len() ==> ord@[p] != ord@[q],
    ensures
        out@.len() == subs@.len(),
        forall|p: int| 0 <= p < out@.len() ==> #[trigger] out@[p] == subs@[ord@[p] as int],
{
    let ghost orig = subs@;
    let n = subs.len();
    let mut rest = subs;
    let mut reversed: Vec<SubProject> = Vec::new();
    while rest.len() > 0
        invariant
            orig.len() == n,
            rest@.len() + reversed@.len() == n,
            rest@ == orig.subrange(0, rest@.len() as int),
            forall|t: int|
                0 <= t < reversed@.len() ==> #[trigger] reversed@[t] == orig[n - 1 - t],
        decreases rest@.len(),
    {
        match rest.pop() {
            Some(s) => {
                reversed.push(s);
                assert(rest@ =~= orig.subrange(0, rest@.len() as int));
            },
            None => {
                assert(false);
            },
        }
    }
    let mut slots: Vec<Option<SubProject>> = Vec::new();
    while reversed.len() > 0
        invariant
            orig.len() == n,
            reversed@.len() + slots@.len() == n,
            forall|t: int|
                0 <= t < reversed@.len() ==> #[trigger] reversed@[t] == orig[n - 1 - t],
            forall|j: int| 0 <= j < slots@.len() ==> #[trigger] slots@[j] == Some(orig[j]),
        decreases reversed@.len(),
    {
        match reversed.pop() {
            Some(s) => {
                slots.push(Some(s));
            },
            None => {
                assert(false);
            },
        }
    }
    let mut out: Vec<SubProject> = Vec::new();
    let mut p: usize = 0;
    while p < n
        invariant
            p <= n,
            ord@.len() == n,
            orig.len() == n,
            slots@.len() == n,
            forall|q: int| 0 <= q < ord@.len() ==> ((#[trigger] ord@[q]) as int) < n,
            forall|q1: int, q2: int| 0 <= q1 < q2 < ord@.len() ==> ord@[q1] != ord@[q2],
            out@.len() == p,
            forall|q: int| 0 <= q < p ==> #[trigger] out@[q] == orig[ord@[q] as int],
            forall|j: int|
                0 <= j < n ==> #[trigger] slots@[j] == (if taken_before(ord@, p as int, j) {
                    None::<SubProject>
                } else {
                    Some(orig[j])
                }),
        decreases n - p,
    {
        let idx = ord[p];
        let mut taken: Option<SubProject> = None;
        proof {
            if taken_before(ord@, p as int, idx as int) {
                let p2 = choose|p2: int|
                    0 <= p2 < p && (#[trigger] ord@[p2]) as int == idx as int;
                assert(ord@[p2] != ord@[p as int]);
                assert(false);
            }
        }
        slots.set_and_swap(idx, &mut taken);
        match taken {
            Some(s) => {
                out.push(s);
            },
            None => {
                assert(false);
            },
        }
        p = p + 1;
        proof {
            assert forall|j: int|
                0 <= j < n implies #[trigger] slots@[j] == (if taken_before(ord@, p as int, j) {
                None::<SubProject>
            } else {
                Some(orig[j])
            }) by {
                if j == idx as int {
                    assert(ord@[p as int - 1] as int == j);
                    assert(taken_before(ord@, p as int, j));
                } else {
                    if taken_before(ord@, p as int, j) {
                        let p2 = choose|p2: int|
                            0 <= p2 < p && (#[trigger] ord@[p2]) as int == j;
                        assert(p2 < p - 1);
                        assert(taken_before(ord@, p as int - 1, j));
                    }
                    if taken_before(ord@, p as int - 1, j) {
                        let p2 = choose|p2: int|
                            0 <= p2 < p - 1 && (#[trigger] ord@[p2]) as int == j;
                        assert(taken_before(ord@, p as int, j));
                    }
                }
            }
        }
    }
    out
}

/// The names along a detected cycle, joined with `" -> "`: the first `upto`
/// nodes of the walk.
pub open spec fn walk_names_prefix(subs: Seq<SubProject>, walk: Seq<int>, upto: int) -> Seq<char>
    decreases upto,
{
    if upto <= 0 {
        Seq::empty()
    } else if upto == 1 {
        subs[walk[0]].name.value@
    } else {
        walk_names_prefix(subs, walk, upto - 1) + " -> "@ + subs[walk[upto - 1]].name.value@
    }
}

/// The error reported for a cycle met while traversing from subproject
/// `r0`: the primary span is that subproject's name, the secondary message
/// spells out the cycle path.
pub open spec fn cycle_error_model(subs: Seq<SubProject>, r0: int, walk: Seq<int>) -> ErrorModel {
    ErrorModel {
        error_type: ErrorType::CircularDependency,
        message: "Circular dependency detected in subproject: "@ + subs[r0].name.value@,
        span: Some(subs[r0].name.span),
        additional_info: Some(
            InfoModel {
                span: subs[r0].name.span,
                message: "Dependency cycle: "@ + walk_names_prefix(subs, walk, walk.len() as int),
            },
        ),
    }
}

/// Permutes the subprojects into a computed topological order.
pub(crate) fn reorder_subprojects(subs: Vec<SubProject>, ord: &Vec<usize>) -> (out: Vec<
    SubProject,
>)
    requires
        graph::is_topo_order(sub_graph(subs@), ord@.map_values(|x: usize| x as int)),
    ensures
        out@.len() == subs@.len(),
        forall|p: int|
            0 <= p < out@.len() ==> #[trigger] out@[p] == subs@[ord@.map_values(
                |x: usize| x as int,
            )[p]],
{
    proof {
        let iord = ord@.map_values(|x: usize| x as int);
        lemma_sub_graph_wf(subs@);
        assert forall|p: int| 0 <= p < ord@.len() implies ((#[trigger] ord@[p]) as int)
            < subs@.len() by {
            assert(iord[p] == ord@[p] as int);
        }
        assert forall|q1: int, q2: int|
            0 <= q1 < q2 < ord@.len() implies ord@[q1] != ord@[q2] by {
            assert(iord[q1] == ord@[q1] as int);
            assert(iord[q2] == ord@[q2] as int);
        }
    }
    reorder(subs, ord)
}

impl SubProject {
    /// Builds the reference graph, detects cycles, and computes the build
    /// order as subproject indices; on a cycle, the error spelling out the
    /// closed walk of names.
    pub(crate) fn resolve_build_order(selfs: &Vec<SubProject>) -> (outcome: Result<
        Vec<usize>,
        Error,
    >)
        ensures
            match outcome {
                Ok(ord) => build_order_model(sub_graph(selfs@)) == Ok::<Seq<int>, (int, Seq<int>)>(
                    ord@.map_values(|x: usize| x as int),
                ),
                Err(e) => build_order_model(sub_graph(selfs@)) matches Err((r0, walk)) && e@
                    == cycle_error_model(selfs@, r0, walk),
            },
    {
        let g = build_graph(selfs);
        proof {
            lemma_sub_graph_wf(selfs@);
        }
        match graph::compute_build_order(&g) {
            Ok(ord) => Ok(ord),
            Err((r0, walk)) => {
                proof {
                    graph::lemma_build_order_sound(sub_graph(selfs@));
                }
                let mut cycle_names = String::new();
                let ghost iwalk = walk@.map_values(|x: usize| x as int);
                let mut t: usize = 0;
                proof {
                    assert(is_cycle(sub_graph(selfs@), iwalk));
                }
                while t < walk.len()
                    invariant
                        t <= walk@.len(),
                        iwalk == walk@.map_values(|x: usize| x as int),
                        is_cycle(sub_graph(selfs@), iwalk),
                        sub_graph(selfs@).len() == selfs@.len(),
                        cycle_names@ == walk_names_prefix(selfs@, iwalk, t as int),
                    decreases walk@.len() - t,
                {
                    proof {
                        if (t as int) < iwalk.len() - 1 {
                            assert(0 <= iwalk[t as int] < selfs@.len());
                        } else {
                            assert(iwalk[t as int] == iwalk[0]);
                            assert(0 <= iwalk[0] < selfs@.len());
                        }
                    }
                    if t > 0 {
                        cycle_names.append(" -> ");
                    }
                    let node = walk[t];
                    cycle_names.append(selfs[node].name.value.as_str());
                    t = t + 1;
                }
                proof {
                    assert(0 <= iwalk[0] < selfs@.len());
                }
                let mut message = String::from_str(
                    "Circular dependency detected in subproject: ",
                );
                message.append(selfs[r0].name.value.as_str());
                let mut info_message = String::from_str("Dependency cycle: ");
                info_message.append(cycle_names.as_str());
                Err(
                    Error::with_info(
                        ErrorType::CircularDependency,
                        message,
                        selfs[r0].name.span,
                        selfs[r0].name.span,
                        info_message,
                    ),
                )
            },
        }
    }

    /// Detects cycles among the subproject references and, finding none,
    /// returns the subprojects permuted into build order: every subproject
    /// a reference names precedes the subproject referencing it.
    pub fn check_circular_dependencies_and_get_build_order(selfs: Vec<SubProject>) -> (outcome:
        Result<Vec<SubProject>, Error>)
        ensures
            match outcome {
                Ok(out) => {
                    &&& build_order_model(sub_graph(selfs@)) matches Ok(ord) && out@.len()
                        == selfs@.len() && forall|p: int|
                        0 <= p < out@.len() ==> #[trigger] out@[p] == selfs@[ord[p]]
                },
                Err(e) => build_order_model(sub_graph(selfs@)) matches Err((r0, walk)) && e@
                    == cycle_error_model(selfs@, r0, walk),
            },
    {
        match Self::resolve_build_order(&selfs) {
            Ok(ord) => {
                proof {
                    lemma_sub_graph_wf(selfs@);
                    graph::lemma_build_order_sound(sub_graph(selfs@));
                }
                let out = reorder_subprojects(selfs, &ord);
                Ok(out)
            },
            Err(e) => Err(e),
        }
    }
}

} // verus!

verus! {

/// The outcome of the subproject graph resolver: the three phases in order,
/// halting at the first violation; on success, the subprojects permuted into
/// build order.
pub open spec fn subs_model(subs: Seq<SubProject>, deps: Dependencies) -> Result<
    Seq<SubProject>,
    ErrorModel,
> {
    match sub_dup_model(subs) {
        Some(e) => Err(e),
        None => match ref_check_model(subs, deps, lib_names(subs)) {
            Some(e) => Err(e),
            None => match build_order_model(sub_graph(subs)) {
                Err((r0, walk)) => Err(cycle_error_model(subs, r0, walk)),
                Ok(ord) => Ok(Seq::new(subs.len(), |p: int| subs[ord[p]])),
            },
        },
    }
}

impl SubProject {
    /// Validates the subprojects against the declared dependencies: names
    /// unique, every dependency reference resolved, no reference cycles. On
    /// success the subprojects come back permuted into build order,
    /// dependencies first.
    pub fn verify_subprojects(selfs: Vec<SubProject>, dependencies: &Dependencies) -> (outcome:
        Result<Vec<SubProject>, Error>)
        ensures
            match outcome {
                Ok(out) => subs_model(selfs@, *dependencies) == Ok::<Seq<SubProject>, ErrorModel>(
                    out@,
                ),
                Err(e) => subs_model(selfs@, *dependencies) == Err::<Seq<SubProject>, ErrorModel>(
                    e@,
                ),
            },
    {
        let lib_set = match Self::check_duplicate_names(&selfs) {
            Ok(libs) => libs,
            Err(e) => {
                return Err(e);
            },
        };
        match Self::check_subproject_dependencies(&selfs, dependencies, &lib_set) {
            Ok(()) => {},
            Err(e) => {
                return Err(e);
            },
        }
        let ghost input = selfs@;
        match Self::check_circular_dependencies_and_get_build_order(selfs) {
            Ok(out) => {
                proof {
                    let ord = build_order_model(sub_graph(input))->Ok_0;
                    assert(out@ =~= Seq::new(input.len(), |p: int| input[ord[p]]));
                }
                Ok(out)
            },
            Err(e) => Err(e),
        }
    }
}

/// Law (topological correctness): whenever validation succeeds, a
/// subproject standing at position `pb` of the returned order that is named
/// by the `k`-th dependency reference of the subproject at position `pa`
/// stands strictly earlier: `pb < pa`.
pub proof fn lemma_order_topological(
    subs: Seq<SubProject>,
    deps: Dependencies,
    out: Seq<SubProject>,
    pa: int,
    pb: int,
    k: int,
)
    requires
        subs_model(subs, deps) == Ok::<Seq<SubProject>, ErrorModel>(out),
        0 <= pa < out.len(),
        0 <= pb < out.len(),
        0 <= k < sub_deps(out[pa]).len(),
        dep_ref_name(sub_deps(out[pa])[k].value) == out[pb].name.value@,
    ensures
        pb < pa,
{
    let g = sub_graph(subs);
    lemma_sub_graph_wf(subs);
    graph::lemma_build_order_sound(g);
    let ord = build_order_model(g)->Ok_0;
    assert(graph::is_topo_order(g, ord));
    lemma_sub_dup_complete(subs);
    assert(out =~= Seq::new(subs.len(), |p: int| subs[ord[p]]));
    let ua = ord[pa];
    let ub = ord[pb];
    assert(out[pa] == subs[ua]);
    assert(out[pb] == subs[ub]);
    let name = dep_ref_name(sub_deps(subs[ua])[k].value);
    // The reference resolves to exactly subproject `ub`: names are unique.
    lemma_first_sub_name(subs, name, 0, subs.len() as int);
    let j0 = first_sub_name(subs, name, 0, subs.len() as int);
    assert(j0 < subs.len()) by {
        if j0 == subs.len() {
            assert(subs[ub].name.value@ != name);
        }
    }
    assert(j0 == ub) by {
        if j0 < ub {
            assert(subs[j0].name.value@ == subs[ub].name.value@);
        }
        if j0 > ub {
            assert(subs[ub].name.value@ != name);
        }
    }
    // The edge `ua -> ub` stands in the graph row of `ua`.
    lemma_edges_prefix_has(subs, ua, k + 1, k);
    let t = choose|t: int|
        0 <= t < edges_prefix(subs, ua, k + 1).len() && #[trigger] edges_prefix(
            subs,
            ua,
            k + 1,
        )[t] == j0;
    lemma_edges_prefix_extends(subs, ua, k + 1, sub_deps(subs[ua]).len() as int);
    assert(g[ua][t] == j0);
    // The topological order puts the child's least position before `pa`.
    assert(child(g, ord[pa], t) == j0);
    assert(first_pos(ord, j0, 0) < pa);
    graph::lemma_first_pos(ord, j0, 0);
    let q = first_pos(ord, j0, 0);
    assert(q == pb) by {
        if q < subs.len() {
            assert(ord[q] == j0);
            if q < pb {
                assert(ord[q] != ord[pb]) by {
                    lemma_topo_distinct(ord, q, pb);
                }
            }
            if q > pb {
                assert(ord[pb] != j0);
            }
        }
    }
}

/// Distinct positions of a duplicate-free order hold distinct nodes.
proof fn lemma_topo_distinct(ord: Seq<int>, q1: int, q2: int)
    requires
        ord.no_duplicates(),
        0 <= q1 < q2 < ord.len(),
    ensures
        ord[q1] != ord[q2],
{
}

/// The edge contributed by reference `k` stands in the row prefix past it,
/// whenever the reference names a subproject.
pub(crate) proof fn lemma_edges_prefix_has(subs: Seq<SubProject>, i: int, upto: int, k: int)
    requires
        0 <= k < upto,
        first_sub_name(subs, dep_ref_name(sub_deps(subs[i])[k].value), 0, subs.len() as int)
            < subs.len(),
    ensures
        exists|t: int|
            0 <= t < edges_prefix(subs, i, upto).len() && #[trigger] edges_prefix(subs, i, upto)[t]
                == first_sub_name(
                subs,
                dep_ref_name(sub_deps(subs[i])[k].value),
                0,
                subs.len() as int,
            ),
    decreases upto,
{
    let j0 = first_sub_name(subs, dep_ref_name(sub_deps(subs[i])[k].value), 0, subs.len() as int);
    if k == upto - 1 {
        let pre = edges_prefix(subs, i, upto - 1);
        assert(edges_prefix(subs, i, upto)[pre.len() as int] == j0);
    } else {
        lemma_edges_prefix_has(subs, i, upto - 1, k);
        let t = choose|t: int|
            0 <= t < edges_prefix(subs, i, upto - 1).len() && #[trigger] edges_prefix(
                subs,
                i,
                upto - 1,
            )[t] == j0;
        assert(edges_prefix(subs, i, upto)[t] == j0);
    }
}

/// A row prefix is a prefix of every longer row prefix.
proof fn lemma_edges_prefix_extends(subs: Seq<SubProject>, i: int, upto: int, full: int)
    requires
        0 <= upto <= full,
    ensures
        edges_prefix(subs, i, upto).len() <= edges_prefix(subs, i, full).len(),
        forall|t: int|
            0 <= t < edges_prefix(subs, i, upto).len() ==> #[trigger] edges_prefix(
                subs,
                i,
                full,
            )[t] == edges_prefix(subs, i, upto)[t],
    decreases full - upto,
{
    if upto < full {
        lemma_edges_prefix_extends(subs, i, upto + 1, full);
        let pre = edges_prefix(subs, i, upto);
        assert forall|t: int| 0 <= t < pre.len() implies #[trigger] edges_prefix(subs, i, full)[t]
            == pre[t] by {
            assert(edges_prefix(subs, i, upto + 1)[t] == pre[t]);
        }
    }
}

/// Law (cycle soundness): with names unique and references resolved, a
/// configuration whose reference graph contains any cycle is rejected with
/// `CircularDependency`, and the walk the error reports is itself a cycle of
/// the graph.
pub proof fn lemma_cycle_rejected(subs: Seq<SubProject>, deps: Dependencies, p: Seq<int>)
    requires
        sub_dup_model(subs) is None,
        ref_check_model(subs, deps, lib_names(subs)) is None,
        is_cycle(sub_graph(subs), p),
    ensures
        subs_model(subs, deps) matches Err(e) && e.error_type == ErrorType::CircularDependency,
        build_order_model(sub_graph(subs)) matches Err((r0, walk)) && is_cycle(
            sub_graph(subs),
            walk,
        ),
{
    lemma_sub_graph_wf(subs);
    graph::lemma_cycle_always_detected(sub_graph(subs), p);
    graph::lemma_build_order_sound(sub_graph(subs));
}

} // verus!
