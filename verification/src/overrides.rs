//! Per-subproject overrides and the override validator.
//!
//! Override names must be unique, and each must equal the name of some
//! subproject. Both violations are reported as `OverrideNameConflict`: a
//! duplicate carries a secondary span at the earlier definition, an
//! unmatched name carries none.

use vstd::prelude::*;
use vstd::string::StringExecFns;

use crate::error::{Error, ErrorModel, ErrorType, InfoModel};
use crate::positioned::Positioned;
use crate::subproject::{find_subproject_index, first_sub_name, SubProject};

verus! {

/// An override of the global build settings for one subproject.
#[derive(Clone, Debug)]
pub struct Override {
    pub name: Positioned<String>,
    pub c_standard: Option<String>,
    pub compiler: Option<String>,
    pub cflags: Option<String>,
    pub debug_flags: Option<String>,
    pub release_flags: Option<String>,
    pub parallel_jobs: Option<u32>,
}

/// The least `j` with `from <= j < upto` whose override is named `name`, or
/// `upto` if there is none.
pub open spec fn first_override_name(
    ovs: Seq<Override>,
    name: Seq<char>,
    from: int,
    upto: int,
) -> int
    decreases upto - from,
{
    if from < 0 || from >= upto {
        upto
    } else if ovs[from].name.value@ == name {
        from
    } else {
        first_override_name(ovs, name, from + 1, upto)
    }
}

/// `first_override_name` returns the least matching index in `[from,
/// upto)`, and `upto` exactly when there is no match.
pub proof fn lemma_first_override_name(ovs: Seq<Override>, name: Seq<char>, from: int, upto: int)
    requires
        0 <= from <= upto,
    ensures
        from <= first_override_name(ovs, name, from, upto) <= upto,
        first_override_name(ovs, name, from, upto) < upto ==> ovs[first_override_name(
            ovs,
            name,
            from,
            upto,
        )].name.value@ == name,
        forall|j: int|
            from <= j < first_override_name(ovs, name, from, upto) && j < upto ==> ovs[
                j].name.value@ != name,
    decreases upto - from,
{
    if from < upto && ovs[from].name.value@ != name {
        lemma_first_override_name(ovs, name, from + 1, upto);
    }
}

/// The duplicate-name violation of override `i`, if any.
pub open spec fn override_dup_at(ovs: Seq<Override>, i: int) -> Option<ErrorModel> {
    let name = ovs[i].name;
    let j = first_override_name(ovs, name.value@, 0, i);
    if j < i {
        Some(
            ErrorModel {
                error_type: ErrorType::OverrideNameConflict,
                message: "Override name "@ + name.value@ + " is already in use"@,
                span: Some(name.span),
                additional_info: Some(
                    InfoModel { span: ovs[j].name.span, message: "Previous definition"@ },
                ),
            },
        )
    } else {
        None
    }
}

/// The first duplicate-name violation among overrides `i` and later.
pub open spec fn override_dup_from(ovs: Seq<Override>, i: int) -> Option<ErrorModel>
    decreases ovs.len() - i,
{
    if i < 0 || i >= ovs.len() {
        None
    } else if override_dup_at(ovs, i) is Some {
        override_dup_at(ovs, i)
    } else {
        override_dup_from(ovs, i + 1)
    }
}

/// The unmatched-name violation of override `i`, if any: its name must
/// equal some subproject's name.
pub open spec fn override_match_at(
    ovs: Seq<Override>,
    subs: Seq<SubProject>,
    i: int,
) -> Option<ErrorModel> {
    let name = ovs[i].name;
    if first_sub_name(subs, name.value@, 0, subs.len() as int) >= subs.len() {
        Some(
            ErrorModel {
                error_type: ErrorType::OverrideNameConflict,
                message: "Override name "@ + name.value@ + " is not defined in any subproject"@,
                span: Some(name.span),
                additional_info: None,
            },
        )
    } else {
        None
    }
}

/// The first unmatched-name violation among overrides `i` and later.
pub open spec fn override_match_from(
    ovs: Seq<Override>,
    subs: Seq<SubProject>,
    i: int,
) -> Option<ErrorModel>
    decreases ovs.len() - i,
{
    if i < 0 || i >= ovs.len() {
        None
    } else if override_match_at(ovs, subs, i) is Some {
        override_match_at(ovs, subs, i)
    } else {
        override_match_from(ovs, subs, i + 1)
    }
}

/// The outcome of the override validator: first any duplicate name, then
/// any name not naming a subproject, each in declaration order.
pub open spec fn overrides_model(ovs: Seq<Override>, subs: Seq<SubProject>) -> Option<ErrorModel> {
    match override_dup_from(ovs, 0) {
        Some(e) => Some(e),
        None => override_match_from(ovs, subs, 0),
    }
}

impl Override {
    /// Rejects the first pair of overrides sharing a name, then the first
    /// override whose name equals no subproject's name.
    pub fn verify_overrides(selfs: &Vec<Override>, sub_projects: &Vec<SubProject>) -> (outcome:
        Result<(), Error>)
        ensures
            match outcome {
                Ok(()) => overrides_model(selfs@, sub_projects@) is None,
                Err(e) => Some(e@) == overrides_model(selfs@, sub_projects@),
            },
    {
        let mut i: usize = 0;
        while i < selfs.len()
            invariant
                i <= selfs@.len(),
                override_dup_from(selfs@, 0) == override_dup_from(selfs@, i as int),
            decreases selfs@.len() - i,
        {
            let current = &selfs[i];
            let mut j: usize = 0;
            while j < i
                invariant
                    j <= i < selfs@.len(),
                    override_dup_from(selfs@, 0) == override_dup_from(selfs@, i as int),
                    current == selfs@[i as int],
                    first_override_name(selfs@, current.name.value@, 0, i as int)
                        == first_override_name(selfs@, current.name.value@, j as int, i as int),
                decreases i - j,
            {
                if selfs[j].name.value == current.name.value {
                    let mut message = String::from_str("Override name ");
                    message.append(current.name.value.as_str());
                    message.append(" is already in use");
                    return Err(
                        Error::with_info(
                            ErrorType::OverrideNameConflict,
                            message,
                            current.name.span,
                            selfs[j].name.span,
                            String::from_str("Previous definition"),
                        ),
                    );
                }
                j = j + 1;
            }
            assert(override_dup_at(selfs@, i as int) is None);
            i = i + 1;
        }
        let mut i: usize = 0;
        while i < selfs.len()
            invariant
                i <= selfs@.len(),
                override_dup_from(selfs@, 0) is None,
                override_match_from(selfs@, sub_projects@, 0) == override_match_from(
                    selfs@,
                    sub_projects@,
                    i as int,
                ),
            decreases selfs@.len() - i,
        {
            let current = &selfs[i];
            if find_subproject_index(sub_projects, &current.name.value).is_none() {
                let mut message = String::from_str("Override name ");
                message.append(current.name.value.as_str());
                message.append(" is not defined in any subproject");
                return Err(
                    Error::new(ErrorType::OverrideNameConflict, message, current.name.span),
                );
            }
            assert(override_match_at(selfs@, sub_projects@, i as int) is None);
            i = i + 1;
        }
        Ok(())
    }
}

} // verus!
