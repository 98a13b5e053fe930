//! The configuration aggregate and the validation pipeline.
//!
//! `verify_config` runs the validators as a linear pipeline — settings,
//! dependencies, subprojects (names, references, cycles), overrides, custom
//! build rules — and halts on the first violation. On success the
//! subprojects stand permuted into build order and nothing else changes; on
//! failure the configuration is left untouched.
//!
//! Everything environment-dependent is handed in as plain values in
//! [`ProbeResults`]; the outcome is therefore a function of the
//! configuration and the probe outcomes alone, stated by [`verify_model`]
//! and proved deterministic.

use vstd::prelude::*;

use crate::build_settings::{settings_check_model, BuildSettings};
use crate::custom_build_rule::{rules_model, CustomBuildRule};
use crate::dependencies::{dep_check_model, Dependencies};
use crate::error::{Error, ErrorModel};
use crate::graph;
use crate::graph::build_order_model;
use crate::overrides::{overrides_model, override_match_at, override_match_from, Override};
use crate::subproject::{
    first_sub_name, lib_names, ref_check_model, sub_dup_model, sub_graph, subs_model, SubProject,
};

verus! {

/// The outcomes of the external probes the validators depend on:
/// whether the named compiler resolved to an executable, whether it accepted
/// the requested language standard, and whether the package-discovery probe
/// found each pkg-config dependency (in declaration order; a missing entry
/// counts as not found).
#[derive(Clone, Debug)]
pub struct ProbeResults {
    pub compiler_found: bool,
    pub c_standard_ok: bool,
    pub pkg_config_found: Vec<bool>,
}

/// One whole project description.
#[derive(Clone, Debug)]
pub struct BuildConfig {
    pub build: BuildSettings,
    pub dependencies: Dependencies,
    pub subprojects: Vec<SubProject>,
    pub custom_build_rules: Option<Vec<CustomBuildRule>>,
    pub overrides: Option<Vec<Override>>,
}

/// The declared custom build rules, empty when none are.
pub open spec fn config_rules(c: BuildConfig) -> Seq<CustomBuildRule> {
    match c.custom_build_rules {
        Some(v) => v@,
        None => Seq::empty(),
    }
}

/// The declared overrides, empty when none are.
pub open spec fn config_overrides(c: BuildConfig) -> Seq<Override> {
    match c.overrides {
        Some(v) => v@,
        None => Seq::empty(),
    }
}

/// The outcome of the whole validation pipeline: the first violation found
/// by the validators in order — settings, dependencies, subprojects,
/// overrides, custom build rules — or the subprojects in build order.
pub open spec fn verify_model(c: BuildConfig, probes: ProbeResults) -> Result<
    Seq<SubProject>,
    ErrorModel,
> {
    match settings_check_model(c.build, probes.compiler_found, probes.c_standard_ok) {
        Some(e) => Err(e),
        None => match dep_check_model(c.dependencies, probes.pkg_config_found@) {
            Some(e) => Err(e),
            None => match subs_model(c.subprojects@, c.dependencies) {
                Err(e) => Err(e),
                Ok(ordered) => match overrides_model(config_overrides(c), ordered) {
                    Some(e) => Err(e),
                    None => match rules_model(config_rules(c)) {
                        Some(e) => Err(e),
                        None => Ok(ordered),
                    },
                },
            },
        },
    }
}

/// Law (determinism): the pipeline's outcome — and, on success, the build
/// order — is a function of the configuration and the probe outcomes alone;
/// equal inputs yield equal outcomes. `verify_config` returns exactly
/// `verify_model` of its input, so two runs on one input agree.
pub proof fn lemma_verify_deterministic(
    c1: BuildConfig,
    c2: BuildConfig,
    p1: ProbeResults,
    p2: ProbeResults,
)
    requires
        c1 == c2,
        p1 == p2,
    ensures
        verify_model(c1, p1) == verify_model(c2, p2),
{
}

/// Whether some subproject carries the name.
pub open spec fn sub_name_exists(subs: Seq<SubProject>, name: Seq<char>) -> bool {
    first_sub_name(subs, name, 0, subs.len() as int) < subs.len()
}

/// Permuting the subprojects does not change which names exist.
proof fn lemma_name_exists_perm(subs: Seq<SubProject>, ord: Seq<int>, name: Seq<char>)
    requires
        graph::is_topo_order(sub_graph(subs), ord),
    ensures
        sub_name_exists(Seq::new(subs.len(), |p: int| subs[ord[p]]), name) == sub_name_exists(
            subs,
            name,
        ),
{
    let n = subs.len() as int;
    let ordered = Seq::new(subs.len(), |p: int| subs[ord[p]]);
    assert(sub_graph(subs).len() == n);
    crate::subproject::lemma_first_sub_name(subs, name, 0, n);
    crate::subproject::lemma_first_sub_name(ordered, name, 0, n);
    if sub_name_exists(ordered, name) {
        let p = first_sub_name(ordered, name, 0, n);
        assert(ordered[p] == subs[ord[p]]);
        if first_sub_name(subs, name, 0, n) == n {
            assert(subs[ord[p]].name.value@ != name);
        }
    }
    if sub_name_exists(subs, name) {
        let u = first_sub_name(subs, name, 0, n);
        assert(ord.contains(u));
        let p = choose|p: int| 0 <= p < ord.len() && ord[p] == u;
        assert(ordered[p].name.value@ == name);
        if first_sub_name(ordered, name, 0, n) == n {
            assert(ordered[p].name.value@ != name);
        }
    }
}

/// The override validator sees only the subproject name set, which the
/// build-order permutation preserves.
proof fn lemma_overrides_model_perm(ovs: Seq<Override>, subs: Seq<SubProject>, ord: Seq<int>)
    requires
        graph::is_topo_order(sub_graph(subs), ord),
    ensures
        overrides_model(ovs, Seq::new(subs.len(), |p: int| subs[ord[p]])) == overrides_model(
            ovs,
            subs,
        ),
{
    let ordered = Seq::new(subs.len(), |p: int| subs[ord[p]]);
    lemma_override_match_from_perm(ovs, subs, ord, 0);
}

/// The unmatched-name sweep judges each override the same against the
/// permuted subprojects.
proof fn lemma_override_match_from_perm(
    ovs: Seq<Override>,
    subs: Seq<SubProject>,
    ord: Seq<int>,
    i: int,
)
    requires
        graph::is_topo_order(sub_graph(subs), ord),
        i >= 0,
    ensures
        override_match_from(ovs, Seq::new(subs.len(), |p: int| subs[ord[p]]), i)
            == override_match_from(ovs, subs, i),
    decreases ovs.len() - i,
{
    let ordered = Seq::new(subs.len(), |p: int| subs[ord[p]]);
    if i < ovs.len() {
        lemma_name_exists_perm(subs, ord, ovs[i].name.value@);
        lemma_override_match_from_perm(ovs, subs, ord, i + 1);
        assert(override_match_at(ovs, ordered, i) == override_match_at(ovs, subs, i));
    }
}

impl BuildConfig {
    /// Validates the whole configuration: toolchain (from the probe
    /// outcomes), dependencies, subprojects, overrides, custom build rules,
    /// halting on the first violation. On success the subprojects are
    /// permuted into build order and everything else is unchanged; on
    /// failure the configuration is untouched.
    pub fn verify_config(&mut self, probes: &ProbeResults) -> (outcome: Result<(), Error>)
        ensures
            match outcome {
                Ok(()) => {
                    &&& verify_model(*old(self), *probes) matches Ok(ordered)
                        && final(self).subprojects@ == ordered
                    &&& final(self).build == old(self).build
                    &&& final(self).dependencies == old(self).dependencies
                    &&& final(self).custom_build_rules == old(self).custom_build_rules
                    &&& final(self).overrides == old(self).overrides
                },
                Err(e) => verify_model(*old(self), *probes) == Err::<Seq<SubProject>, ErrorModel>(
                    e@,
                ) && *final(self) == *old(self),
            },
    {
        if let Err(e) = self.build.check_compiler_details(
            probes.compiler_found,
            probes.c_standard_ok,
        ) {
            return Err(e);
        }
        if let Err(e) = self.dependencies.check_dependencies(&probes.pkg_config_found) {
            return Err(e);
        }
        let lib_set = match SubProject::check_duplicate_names(&self.subprojects) {
            Ok(libs) => libs,
            Err(e) => {
                return Err(e);
            },
        };
        if let Err(e) = SubProject::check_subproject_dependencies(
            &self.subprojects,
            &self.dependencies,
            &lib_set,
        ) {
            return Err(e);
        }
        let ghost subs = self.subprojects@;
        match SubProject::resolve_build_order(&self.subprojects) {
            Err(e) => {
                return Err(e);
            },
            Ok(ord) => {
                proof {
                    crate::subproject::lemma_sub_graph_wf(subs);
                    graph::lemma_build_order_sound(sub_graph(subs));
                }
                if let Some(overrides) = &self.overrides {
                    if let Err(e) = Override::verify_overrides(overrides, &self.subprojects) {
                        proof {
                            let iord = build_order_model(sub_graph(subs))->Ok_0;
                            lemma_overrides_model_perm(config_overrides(*self), subs, iord);
                        }
                        return Err(e);
                    }
                } else {
                    assert(config_overrides(*self) =~= Seq::<Override>::empty());
                }
                proof {
                    let iord = build_order_model(sub_graph(subs))->Ok_0;
                    lemma_overrides_model_perm(config_overrides(*self), subs, iord);
                }
                if let Some(rules) = &self.custom_build_rules {
                    if let Err(e) = CustomBuildRule::verify_custom_build_rules(rules) {
                        return Err(e);
                    }
                } else {
                    assert(config_rules(*self) =~= Seq::<CustomBuildRule>::empty());
                }
                let mut owned: Vec<SubProject> = Vec::new();
                core::mem::swap(&mut owned, &mut self.subprojects);
                let reordered = crate::subproject::reorder_subprojects(owned, &ord);
                self.subprojects = reordered;
                proof {
                    let iord = build_order_model(sub_graph(subs))->Ok_0;
                    assert(self.subprojects@ =~= Seq::new(subs.len(), |p: int| subs[iord[p]]));
                }
                Ok(())
            },
        }
    }
}

} // verus!

verus! {

/// Law (reference resolution, rejection half): with the toolchain accepted,
/// the dependencies clean and the subproject names unique, a subproject
/// referencing a name that is neither a declared dependency nor a linkable
/// subproject makes validation fail with `InvalidSubprojectDependency`.
pub proof fn lemma_unresolved_reference_rejected(
    c: BuildConfig,
    probes: ProbeResults,
    i: int,
    k: int,
)
    requires
        settings_check_model(c.build, probes.compiler_found, probes.c_standard_ok) is None,
        dep_check_model(c.dependencies, probes.pkg_config_found@) is None,
        sub_dup_model(c.subprojects@) is None,
        0 <= i < c.subprojects@.len(),
        0 <= k < crate::subproject::sub_deps(c.subprojects@[i]).len(),
        !crate::subproject::ref_resolves(
            c.dependencies,
            lib_names(c.subprojects@),
            crate::subproject::dep_ref_name(
                crate::subproject::sub_deps(c.subprojects@[i])[k].value,
            ),
        ),
    ensures
        verify_model(c, probes) matches Err(e) && e.error_type
            == crate::error::ErrorType::InvalidSubprojectDependency,
{
    let subs = c.subprojects@;
    let libs = lib_names(subs);
    crate::subproject::lemma_ref_check_complete(subs, c.dependencies, libs);
    assert(crate::subproject::ref_err_at(subs, c.dependencies, libs, i, k) is Some);
    assert(ref_check_model(subs, c.dependencies, libs) is Some);
    crate::subproject::lemma_ref_check_kind(subs, c.dependencies, libs, 0, 0);
}

/// Law (cycle soundness, at the pipeline): with the earlier validators
/// passing, a configuration whose subproject reference graph contains any
/// cycle fails with `CircularDependency` and yields no build order.
pub proof fn lemma_cyclic_config_rejected(c: BuildConfig, probes: ProbeResults, p: Seq<int>)
    requires
        settings_check_model(c.build, probes.compiler_found, probes.c_standard_ok) is None,
        dep_check_model(c.dependencies, probes.pkg_config_found@) is None,
        sub_dup_model(c.subprojects@) is None,
        ref_check_model(c.subprojects@, c.dependencies, lib_names(c.subprojects@)) is None,
        graph::is_cycle(sub_graph(c.subprojects@), p),
    ensures
        verify_model(c, probes) matches Err(e) && e.error_type
            == crate::error::ErrorType::CircularDependency,
{
    crate::subproject::lemma_cycle_rejected(c.subprojects@, c.dependencies, p);
}

/// Law (uniqueness enforcement, at the pipeline): with the toolchain
/// accepted and no other dependency violation present, two dependencies of
/// any categories sharing a name make validation fail with
/// `DuplicateDependencyName`.
pub proof fn lemma_config_duplicate_dep_name_rejected(
    c: BuildConfig,
    probes: ProbeResults,
    t1: int,
    t2: int,
)
    requires
        settings_check_model(c.build, probes.compiler_found, probes.c_standard_ok) is None,
        0 <= t1 < t2 < crate::dependencies::dep_count(c.dependencies),
        crate::dependencies::dep_name_at(c.dependencies, t1).value@
            == crate::dependencies::dep_name_at(c.dependencies, t2).value@,
        crate::dependencies::remote_sources_unique(c.dependencies),
        crate::dependencies::remote_includes_unique(c.dependencies),
        forall|i: int|
            0 <= i < c.dependencies.remote@.len() ==> crate::dependencies::remote_build_fields_ok(
                (#[trigger] c.dependencies.remote@[i]).value,
            ),
        forall|k: int|
            0 <= k < c.dependencies.pkg_config@.len() ==> crate::dependencies::probe_ok(
                probes.pkg_config_found@,
                k,
            ),
    ensures
        verify_model(c, probes) matches Err(e) && e.error_type
            == crate::error::ErrorType::DuplicateDependencyName,
{
    crate::dependencies::lemma_duplicate_name_rejected(
        c.dependencies,
        probes.pkg_config_found@,
        t1,
        t2,
    );
}

/// Law (uniqueness enforcement, at the pipeline): with the toolchain
/// accepted and no other dependency violation present, two remote
/// dependencies sharing source and version make validation fail with
/// `DuplicateDependencySource`.
pub proof fn lemma_config_duplicate_source_rejected(
    c: BuildConfig,
    probes: ProbeResults,
    i: int,
    j: int,
)
    requires
        settings_check_model(c.build, probes.compiler_found, probes.c_standard_ok) is None,
        0 <= i < j < c.dependencies.remote@.len(),
        crate::dependencies::remote_key(c.dependencies.remote@[i].value)
            == crate::dependencies::remote_key(c.dependencies.remote@[j].value),
        crate::dependencies::dep_names_unique(c.dependencies),
        crate::dependencies::remote_includes_unique(c.dependencies),
        forall|i2: int|
            0 <= i2 < c.dependencies.remote@.len() ==> crate::dependencies::remote_build_fields_ok(
                (#[trigger] c.dependencies.remote@[i2]).value,
            ),
    ensures
        verify_model(c, probes) matches Err(e) && e.error_type
            == crate::error::ErrorType::DuplicateDependencySource,
{
    crate::dependencies::lemma_duplicate_source_rejected(
        c.dependencies,
        probes.pkg_config_found@,
        i,
        j,
    );
}

} // verus!

verus! {

/// A name stands in the linkable name set exactly when some linkable
/// subproject carries it.
proof fn lemma_lib_prefix_contains(subs: Seq<SubProject>, upto: int, name: Seq<char>)
    requires
        0 <= upto <= subs.len(),
    ensures
        crate::subproject::lib_names_prefix(subs, upto).contains(name) <==> exists|i: int|
            0 <= i < upto && crate::subproject::is_linkable(#[trigger] subs[i])
                && subs[i].name.value@ == name,
    decreases upto,
{
    if upto > 0 {
        lemma_lib_prefix_contains(subs, upto - 1, name);
        let s = crate::subproject::lib_names_prefix(subs, upto - 1);
        let full = crate::subproject::lib_names_prefix(subs, upto);
        if full.contains(name) {
            let idx = choose|idx: int| 0 <= idx < full.len() && full[idx] == name;
            if idx < s.len() {
                assert(s[idx] == name);
                assert(s.contains(name));
            } else {
                assert(crate::subproject::is_linkable(subs[upto - 1]) && subs[upto
                    - 1].name.value@ == name);
            }
        }
        if exists|i: int|
            0 <= i < upto && crate::subproject::is_linkable(#[trigger] subs[i])
                && subs[i].name.value@ == name {
            let i = choose|i: int|
                0 <= i < upto && crate::subproject::is_linkable(#[trigger] subs[i])
                    && subs[i].name.value@ == name;
            if i < upto - 1 {
                assert(s.contains(name));
                let idx = choose|idx: int| 0 <= idx < s.len() && s[idx] == name;
                assert(full[idx] == name);
                assert(full.contains(name));
            } else {
                assert(full[s.len() as int] == name);
                assert(full.contains(name));
            }
        }
    }
}

/// The build-order permutation preserves the linkable name set.
proof fn lemma_lib_names_perm(subs: Seq<SubProject>, ord: Seq<int>, name: Seq<char>)
    requires
        graph::is_topo_order(sub_graph(subs), ord),
    ensures
        lib_names(Seq::new(subs.len(), |p: int| subs[ord[p]])).contains(name) <==> lib_names(
            subs,
        ).contains(name),
{
    let n = subs.len() as int;
    let ordered = Seq::new(subs.len(), |p: int| subs[ord[p]]);
    assert(sub_graph(subs).len() == n);
    lemma_lib_prefix_contains(subs, n, name);
    lemma_lib_prefix_contains(ordered, n, name);
    if exists|i: int|
        0 <= i < n && crate::subproject::is_linkable(#[trigger] subs[i]) && subs[i].name.value@
            == name {
        let i = choose|i: int|
            0 <= i < n && crate::subproject::is_linkable(#[trigger] subs[i]) && subs[i].name.value@
                == name;
        assert(ord.contains(i));
        let p = choose|p: int| 0 <= p < ord.len() && ord[p] == i;
        assert(crate::subproject::is_linkable(ordered[p]) && ordered[p].name.value@ == name);
    }
    if exists|p: int|
        0 <= p < n && crate::subproject::is_linkable(#[trigger] ordered[p])
            && ordered[p].name.value@ == name {
        let p = choose|p: int|
            0 <= p < n && crate::subproject::is_linkable(#[trigger] ordered[p])
                && ordered[p].name.value@ == name;
        assert(ordered[p] == subs[ord[p]]);
    }
}

/// The build-order permutation keeps subproject names pairwise distinct.
proof fn lemma_distinct_perm(subs: Seq<SubProject>, ord: Seq<int>)
    requires
        graph::is_topo_order(sub_graph(subs), ord),
        crate::subproject::sub_names_distinct(subs),
    ensures
        crate::subproject::sub_names_distinct(Seq::new(subs.len(), |p: int| subs[ord[p]])),
{
    let n = subs.len() as int;
    let ordered = Seq::new(subs.len(), |p: int| subs[ord[p]]);
    assert(sub_graph(subs).len() == n);
    assert forall|p: int, q: int|
        0 <= p < q < ordered.len() implies ordered[p].name.value@ != ordered[q].name.value@ by {
        assert(ord[p] != ord[q]);
        if ord[p] < ord[q] {
            assert(subs[ord[p]].name.value@ != subs[ord[q]].name.value@);
        } else {
            assert(subs[ord[q]].name.value@ != subs[ord[p]].name.value@);
        }
    }
}

/// After the build-order permutation every edge of the reference graph
/// points backwards: the new order is itself topological.
proof fn lemma_ordered_graph_sorted(subs: Seq<SubProject>, ord: Seq<int>)
    requires
        graph::is_topo_order(sub_graph(subs), ord),
        crate::subproject::sub_names_distinct(subs),
    ensures
        graph::sorted_graph(sub_graph(Seq::new(subs.len(), |p: int| subs[ord[p]]))),
{
    let n = subs.len() as int;
    let ordered = Seq::new(subs.len(), |p: int| subs[ord[p]]);
    let g1 = sub_graph(subs);
    let g2 = sub_graph(ordered);
    assert(g1.len() == n && g2.len() == n);
    assert forall|p: int, t: int|
        0 <= p < g2.len() && 0 <= t < g2[p].len() implies #[trigger] g2[p][t] < p by {
        lemma_ordered_row_bounded(
            subs,
            ord,
            ordered,
            p,
            crate::subproject::sub_deps(ordered[p]).len() as int,
        );
        assert(g2[p] == crate::subproject::edges_prefix(
            ordered,
            p,
            crate::subproject::sub_deps(ordered[p]).len() as int,
        ));
    }
}

/// Every edge the first `upto` references of position `p` contribute points
/// strictly backwards.
proof fn lemma_ordered_row_bounded(
    subs: Seq<SubProject>,
    ord: Seq<int>,
    ordered: Seq<SubProject>,
    p: int,
    upto: int,
)
    requires
        graph::is_topo_order(sub_graph(subs), ord),
        crate::subproject::sub_names_distinct(subs),
        ordered == Seq::new(subs.len(), |q: int| subs[ord[q]]),
        0 <= p < subs.len(),
        0 <= upto <= crate::subproject::sub_deps(ordered[p]).len(),
    ensures
        forall|t: int|
            0 <= t < crate::subproject::edges_prefix(ordered, p, upto).len()
                ==> #[trigger] crate::subproject::edges_prefix(ordered, p, upto)[t] < p,
    decreases upto,
{
    let n = subs.len() as int;
    let g1 = sub_graph(subs);
    if upto > 0 {
        lemma_ordered_row_bounded(subs, ord, ordered, p, upto - 1);
        let pre = crate::subproject::edges_prefix(ordered, p, upto - 1);
        let name = crate::subproject::dep_ref_name(
            crate::subproject::sub_deps(ordered[p])[upto - 1].value,
        );
        let q = first_sub_name(ordered, name, 0, n);
        crate::subproject::lemma_first_sub_name(ordered, name, 0, n);
        assert forall|t: int|
            0 <= t < crate::subproject::edges_prefix(ordered, p, upto).len() implies #[trigger] crate::subproject::edges_prefix(
            ordered,
            p,
            upto,
        )[t] < p by {
            if t < pre.len() {
                assert(crate::subproject::edges_prefix(ordered, p, upto)[t] == pre[t]);
            } else {
                // The added edge: the reference names a subproject; its
                // position in the new order lies before `p` by the
                // topological property of the old order.
                assert(q < n);
                assert(crate::subproject::edges_prefix(ordered, p, upto)[t] == q);
                assert(ordered[q].name.value@ == name);
                assert(subs[ord[q]].name.value@ == name);
                let j1 = first_sub_name(subs, name, 0, n);
                crate::subproject::lemma_first_sub_name(subs, name, 0, n);
                assert(j1 < n) by {
                    if j1 == n {
                        assert(subs[ord[q]].name.value@ != name);
                    }
                }
                assert(ord[q] == j1) by {
                    if ord[q] < j1 {
                        assert(subs[ord[q]].name.value@ != name);
                    }
                    if j1 < ord[q] {
                        assert(subs[j1].name.value@ == subs[ord[q]].name.value@);
                    }
                }
                // The old graph has the edge `ord[p] -> j1`.
                assert(crate::subproject::sub_deps(ordered[p]) == crate::subproject::sub_deps(
                    subs[ord[p]],
                ));
                crate::subproject::lemma_edges_prefix_has(
                    subs,
                    ord[p],
                    crate::subproject::sub_deps(subs[ord[p]]).len() as int,
                    upto - 1,
                );
                let t1 = choose|t1: int|
                    0 <= t1 < crate::subproject::edges_prefix(
                        subs,
                        ord[p],
                        crate::subproject::sub_deps(subs[ord[p]]).len() as int,
                    ).len() && #[trigger] crate::subproject::edges_prefix(
                        subs,
                        ord[p],
                        crate::subproject::sub_deps(subs[ord[p]]).len() as int,
                    )[t1] == j1;
                assert(g1[ord[p]][t1] == j1);
                assert(graph::child(g1, ord[p], t1) == j1);
                assert(graph::first_pos(ord, j1, 0) < p);
                graph::lemma_first_pos(ord, j1, 0);
                let fp = graph::first_pos(ord, j1, 0);
                assert(fp < ord.len());
                assert(ord[fp] == j1);
                assert(q == fp) by {
                    if q < fp {
                        assert(ord[q] != ord[fp]);
                    }
                    if fp < q {
                        assert(ord[fp] != ord[q]);
                    }
                }
            }
        }
    }
}

/// Law (idempotence of re-validation): validating a configuration whose
/// subprojects already stand in a computed build order succeeds again and
/// keeps the order: the pipeline is stable under re-application.
pub proof fn lemma_reverify_idempotent(
    c: BuildConfig,
    c2: BuildConfig,
    probes: ProbeResults,
    ordered: Seq<SubProject>,
)
    requires
        verify_model(c, probes) == Ok::<Seq<SubProject>, ErrorModel>(ordered),
        c2.build == c.build,
        c2.dependencies == c.dependencies,
        c2.subprojects@ == ordered,
        c2.custom_build_rules == c.custom_build_rules,
        c2.overrides == c.overrides,
    ensures
        verify_model(c2, probes) == Ok::<Seq<SubProject>, ErrorModel>(ordered),
{
    let subs = c.subprojects@;
    let deps = c.dependencies;
    let n = subs.len() as int;
    // Unpack the first run.
    assert(sub_dup_model(subs) is None);
    assert(ref_check_model(subs, deps, lib_names(subs)) is None);
    let ord = build_order_model(sub_graph(subs))->Ok_0;
    crate::subproject::lemma_sub_graph_wf(subs);
    graph::lemma_build_order_sound(sub_graph(subs));
    assert(graph::is_topo_order(sub_graph(subs), ord));
    assert(ordered == Seq::new(subs.len(), |p: int| subs[ord[p]]));
    assert(ordered.len() == n);
    // Names stay distinct.
    crate::subproject::lemma_sub_dup_complete(subs);
    lemma_distinct_perm(subs, ord);
    crate::subproject::lemma_sub_dup_complete(ordered);
    assert(sub_dup_model(ordered) is None);
    // References still resolve.
    crate::subproject::lemma_ref_check_complete(subs, deps, lib_names(subs));
    crate::subproject::lemma_ref_check_complete(ordered, deps, lib_names(ordered));
    assert forall|p: int, k: int|
        0 <= p < ordered.len() && 0 <= k < crate::subproject::sub_deps(ordered[p]).len()
        implies crate::subproject::ref_resolves(
        deps,
        lib_names(ordered),
        crate::subproject::dep_ref_name(
            (#[trigger] crate::subproject::sub_deps(ordered[p])[k]).value,
        ),
    ) by {
        assert(ordered[p] == subs[ord[p]]);
        let name = crate::subproject::dep_ref_name(
            crate::subproject::sub_deps(subs[ord[p]])[k].value,
        );
        assert(crate::subproject::ref_resolves(deps, lib_names(subs), name)) by {
            assert(crate::subproject::sub_deps(subs[ord[p]])[k]
                == crate::subproject::sub_deps(subs[ord[p]])[k]);
        }
        lemma_lib_names_perm(subs, ord, name);
    }
    assert(ref_check_model(ordered, deps, lib_names(ordered)) is None);
    // The new order is already topological, so the search keeps it.
    lemma_ordered_graph_sorted(subs, ord);
    crate::subproject::lemma_sub_graph_wf(ordered);
    graph::lemma_sorted_graph_identity(sub_graph(ordered));
    let identity = Seq::new(ordered.len(), |i: int| i);
    assert(build_order_model(sub_graph(ordered)) == Ok::<Seq<int>, (int, Seq<int>)>(identity));
    assert(Seq::new(ordered.len(), |p: int| ordered[identity[p]]) =~= ordered);
    assert(subs_model(ordered, deps) == Ok::<Seq<SubProject>, ErrorModel>(ordered));
    // Overrides and rules see the same inputs as in the first run.
    assert(config_overrides(c2) == config_overrides(c));
    assert(config_rules(c2) == config_rules(c));
    assert(overrides_model(config_overrides(c), ordered) is None);
    assert(rules_model(config_rules(c)) is None);
}

} // verus!
