//! The placement policies and how one is chosen by name.

use vstd::prelude::*;
use vstd::string::StringExecFns;

verus! {

/// The policy by which the scheduler places tasks on workers.
#[derive(Clone, Copy, Debug, PartialEq, Eq, Structural)]
pub enum SchedulerType {
    /// Place by load and by the bytes to move; rebalance by stealing.
    Workstealing,
    /// Place on a worker drawn at random.
    Random,
}

impl SchedulerType {
    /// The policy that `name` stands for, if it stands for one.
    pub open spec fn spec_from_str(name: Seq<char>) -> Option<SchedulerType> {
        if name == "workstealing"@ {
            Some(SchedulerType::Workstealing)
        } else if name == "random"@ {
            Some(SchedulerType::Random)
        } else {
            None
        }
    }

    /// The text that refuses `name`.
    pub open spec fn spec_unknown(name: Seq<char>) -> Seq<char> {
        "Scheduler '"@ + name + "' does not exist"@
    }

    /// Reads the name of a policy: `workstealing` or `random`. Any other
    /// name is refused with a text that quotes it.
    pub fn from_str(scheduler: &str) -> (result: Result<SchedulerType, String>)
        ensures
            match result {
                Ok(kind) => Self::spec_from_str(scheduler@) == Some(kind),
                Err(text) => Self::spec_from_str(scheduler@) is None && text@ == Self::spec_unknown(
                    scheduler@,
                ),
            },
    {
        let name = String::from_str(scheduler);
        if name == String::from_str("workstealing") {
            Ok(SchedulerType::Workstealing)
        } else if name == String::from_str("random") {
            Ok(SchedulerType::Random)
        } else {
            let mut text = String::from_str("Scheduler '");
            text.append(scheduler);
            text.append("' does not exist");
            Err(text)
        }
    }
}

} // verus!
