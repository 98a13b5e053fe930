//! Custom asset-build rules and their validator: rule names must be unique.

use vstd::prelude::*;
use vstd::string::StringExecFns;

use crate::error::{Error, ErrorModel, ErrorType, InfoModel};
use crate::positioned::Positioned;

verus! {

/// When a custom build rule re-runs.
#[derive(Clone, Copy, Debug, PartialEq, Eq, Structural)]
pub enum CustomBuildRuleType {
    IfChanged,
    Always,
    OnTrigger,
}

/// A custom build rule for assets outside the compiler's reach.
#[derive(Clone, Debug)]
pub struct CustomBuildRule {
    pub name: Positioned<String>,
    pub description: Option<String>,
    pub src_dir: String,
    pub output_dir: String,
    pub trigger_extensions: Vec<String>,
    pub output_extension: String,
    pub command: String,
    pub rebuild_rule: CustomBuildRuleType,
}

/// The least `j` with `from <= j < upto` whose rule is named `name`, or
/// `upto` if there is none.
pub open spec fn first_rule_name(
    rules: Seq<CustomBuildRule>,
    name: Seq<char>,
    from: int,
    upto: int,
) -> int
    decreases upto - from,
{
    if from < 0 || from >= upto {
        upto
    } else if rules[from].name.value@ == name {
        from
    } else {
        first_rule_name(rules, name, from + 1, upto)
    }
}

/// The duplicate-name violation of rule `i`, if any.
pub open spec fn rule_dup_at(rules: Seq<CustomBuildRule>, i: int) -> Option<ErrorModel> {
    let name = rules[i].name;
    let j = first_rule_name(rules, name.value@, 0, i);
    if j < i {
        Some(
            ErrorModel {
                error_type: ErrorType::DuplicateCustomBuildRuleName,
                message: "Duplicate custom build rule name "@ + name.value@,
                span: Some(name.span),
                additional_info: Some(
                    InfoModel { span: rules[j].name.span, message: "Previous definition"@ },
                ),
            },
        )
    } else {
        None
    }
}

/// The first duplicate-name violation among rules `i` and later.
pub open spec fn rule_dup_from(rules: Seq<CustomBuildRule>, i: int) -> Option<ErrorModel>
    decreases rules.len() - i,
{
    if i < 0 || i >= rules.len() {
        None
    } else if rule_dup_at(rules, i) is Some {
        rule_dup_at(rules, i)
    } else {
        rule_dup_from(rules, i + 1)
    }
}

/// The outcome of the custom-build-rule validator: the first duplicate rule
/// name, in declaration order.
pub open spec fn rules_model(rules: Seq<CustomBuildRule>) -> Option<ErrorModel> {
    rule_dup_from(rules, 0)
}

impl CustomBuildRule {
    /// Rejects the first pair of custom build rules sharing a name.
    pub fn verify_custom_build_rules(selfs: &Vec<CustomBuildRule>) -> (outcome: Result<(), Error>)
        ensures
            match outcome {
                Ok(()) => rules_model(selfs@) is None,
                Err(e) => Some(e@) == rules_model(selfs@),
            },
    {
        let mut i: usize = 0;
        while i < selfs.len()
            invariant
                i <= selfs@.len(),
                rules_model(selfs@) == rule_dup_from(selfs@, i as int),
            decreases selfs@.len() - i,
        {
            let current = &selfs[i];
            let mut j: usize = 0;
            while j < i
                invariant
                    j <= i < selfs@.len(),
                    rules_model(selfs@) == rule_dup_from(selfs@, i as int),
                    current == selfs@[i as int],
                    first_rule_name(selfs@, current.name.value@, 0, i as int) == first_rule_name(
                        selfs@,
                        current.name.value@,
                        j as int,
                        i as int,
                    ),
                decreases i - j,
            {
                if selfs[j].name.value == current.name.value {
                    let mut message = String::from_str("Duplicate custom build rule name ");
                    message.append(current.name.value.as_str());
                    return Err(
                        Error::with_info(
                            ErrorType::DuplicateCustomBuildRuleName,
                            message,
                            current.name.span,
                            selfs[j].name.span,
                            String::from_str("Previous definition"),
                        ),
                    );
                }
                j = j + 1;
            }
            assert(rule_dup_at(selfs@, i as int) is None);
            i = i + 1;
        }
        Ok(())
    }
}

} // verus!
