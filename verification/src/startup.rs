//! Checks before the relay starts, and the way from root to an unprivileged
//! user.

use vstd::prelude::*;
use crate::config::{Action, Config, RuleView};
use crate::interface::Interface;
use crate::text::same_text;

verus! {

/// Why the relay does not start.
#[derive(Debug)]
pub enum StartupError {
    /// This input interface does not exist or is not up.
    Input(String),
    /// This output interface does not exist or is not up.
    Output(String),
}

/// What a [`StartupError`] stands for.
pub enum StartupErrorView {
    Input(Seq<char>),
    Output(Seq<char>),
}

impl View for StartupError {
    type V = StartupErrorView;

    open spec fn view(&self) -> StartupErrorView {
        match self {
            StartupError::Input(name) => StartupErrorView::Input(name@),
            StartupError::Output(name) => StartupErrorView::Output(name@),
        }
    }
}

impl StartupErrorView {
    /// The message for a user.
    pub open spec fn message(self) -> Seq<char> {
        match self {
            StartupErrorView::Input(name) => "Input interface '"@ + name
                + "' not found or not up"@,
            StartupErrorView::Output(name) => "Output interface '"@ + name
                + "' not found or not up"@,
        }
    }
}

impl StartupError {
    /// The message for a user.
    pub fn to_string(&self) -> (r: String)
        ensures
            r@ == self@.message(),
    {
        let mut r: String = String::new();
        match self {
            StartupError::Input(name) => {
                r.append("Input interface '");
                r.append(name.as_str());
            },
            StartupError::Output(name) => {
                r.append("Output interface '");
                r.append(name.as_str());
            },
        }
        r.append("' not found or not up");
        proof {
            assert(r@ =~= self@.message());
        }
        r
    }
}

/// Whether an interface of this name is up.
pub open spec fn is_up(interfaces: Seq<Interface>, name: Seq<char>) -> bool {
    exists|i: int|
        0 <= i < interfaces.len() && (#[trigger] interfaces[i]).name@ == name
            && interfaces[i].is_up
}

/// The first of `names` that does not belong to an interface that is up.
pub open spec fn first_missing(interfaces: Seq<Interface>, names: Seq<String>) -> Option<Seq<char>>
    decreases names.len(),
{
    if names.len() == 0 {
        None
    } else if !is_up(interfaces, names[0]@) {
        Some(names[0]@)
    } else {
        first_missing(interfaces, names.drop_first())
    }
}

/// Whether every rule denies.
pub open spec fn denies_all(rules: Seq<RuleView>) -> bool {
    forall|i: int| 0 <= i < rules.len() ==> (#[trigger] rules[i]).action == Action::Deny
}

/// Whether an interface of this name is up.
fn check_up(interfaces: &Vec<Interface>, name: &str) -> (r: bool)
    ensures
        r == is_up(interfaces@, name@),
{
    let mut i: usize = 0;
    while i < interfaces.len()
        invariant
            i <= interfaces@.len(),
            forall|j: int|
                0 <= j < i ==> (#[trigger] interfaces@[j]).name@ != name@ || !interfaces@[j].is_up,
        decreases interfaces@.len() - i,
    {
        if interfaces[i].is_up && same_text(interfaces[i].name.as_str(), name) {
            return true;
        }
        i = i + 1;
    }
    false
}

/// The position of the first name that does not belong to an interface that is
/// up.
fn find_missing(interfaces: &Vec<Interface>, names: &Vec<String>) -> (r: Option<usize>)
    ensures
        match r {
            Some(i) => i < names@.len() && first_missing(interfaces@, names@) == Some(
                names@[i as int]@,
            ),
            None => first_missing(interfaces@, names@) is None,
        },
{
    let mut i: usize = 0;
    proof {
        assert(names@.skip(0) =~= names@);
    }
    while i < names.len()
        invariant
            i <= names@.len(),
            first_missing(interfaces@, names@) == first_missing(
                interfaces@,
                names@.skip(i as int),
            ),
        decreases names@.len() - i,
    {
        proof {
            assert(names@.skip(i as int)[0] == names@[i as int]);
            assert(names@.skip(i as int).drop_first() =~= names@.skip(i as int + 1));
        }
        if !check_up(interfaces, names[i].as_str()) {
            return Some(i);
        }
        i = i + 1;
    }
    None
}

/// Whether every rule of a configuration denies.
fn check_denies_all(config: &Config) -> (r: bool)
    ensures
        r == denies_all(config@),
{
    let mut i: usize = 0;
    while i < config.rules.len()
        invariant
            i <= config.rules@.len(),
            forall|j: int| 0 <= j < i ==> (#[trigger] config@[j]).action == Action::Deny,
        decreases config.rules@.len() - i,
    {
        if config.rules[i].action != Action::Deny {
            assert(config@[i as int].action != Action::Deny);
            return false;
        }
        assert(config@[i as int].action == Action::Deny);
        i = i + 1;
    }
    true
}

/// What to know about a relay that can start.
#[derive(Debug, Clone, Copy, PartialEq, Eq, Structural)]
pub enum Readiness {
    /// Nothing stands against it.
    Ready,
    /// The configuration has no `allow` rule: no packets will be relayed.
    NothingAllowed,
}

/// Checks that every named interface exists and is up, inputs first, and
/// whether the configuration allows anything.
pub fn validate_startup(
    config: &Config,
    interfaces: &Vec<Interface>,
    input_ifs: &Vec<String>,
    output_ifs: &Vec<String>,
) -> (r: Result<Readiness, StartupError>)
    ensures
        match r {
            Err(e) => match e@ {
                StartupErrorView::Input(name) => first_missing(interfaces@, input_ifs@) == Some(
                    name,
                ),
                StartupErrorView::Output(name) => first_missing(interfaces@, input_ifs@) is None
                    && first_missing(interfaces@, output_ifs@) == Some(name),
            },
            Ok(readiness) => {
                &&& first_missing(interfaces@, input_ifs@) is None
                &&& first_missing(interfaces@, output_ifs@) is None
                &&& (readiness == Readiness::NothingAllowed) == denies_all(config@)
            },
        },
{
    if let Some(i) = find_missing(interfaces, input_ifs) {
        return Err(StartupError::Input(input_ifs[i].clone()));
    }
    if let Some(i) = find_missing(interfaces, output_ifs) {
        return Err(StartupError::Output(output_ifs[i].clone()));
    }
    if check_denies_all(config) {
        Ok(Readiness::NothingAllowed)
    } else {
        Ok(Readiness::Ready)
    }
}

/// A relay starts exactly when every named interface is up.
pub proof fn none_missing_iff_all_up(interfaces: Seq<Interface>, names: Seq<String>)
    ensures
        first_missing(interfaces, names) is None <==> forall|i: int|
            0 <= i < names.len() ==> is_up(interfaces, (#[trigger] names[i])@),
    decreases names.len(),
{
    if names.len() > 0 {
        let rest = names.drop_first();
        none_missing_iff_all_up(interfaces, rest);
        if first_missing(interfaces, names) is None {
            assert forall|i: int| 0 <= i < names.len() implies is_up(
                interfaces,
                (#[trigger] names[i])@,
            ) by {
                if i > 0 {
                    assert(names[i] == rest[i - 1]);
                }
            }
        }
        if forall|i: int| 0 <= i < names.len() ==> is_up(interfaces, (#[trigger] names[i])@) {
            assert(is_up(interfaces, names[0]@));
            assert forall|i: int| 0 <= i < rest.len() implies is_up(
                interfaces,
                (#[trigger] rest[i])@,
            ) by {
                assert(rest[i] == names[i + 1]);
            }
        }
    }
}

/// The next thing to do on the way from root to an unprivileged user.
#[derive(Debug, Clone, Copy, PartialEq, Eq, Structural)]
pub enum DropStep {
    /// Set the supplementary groups.
    SetGroups,
    /// Set the group.
    SetGid,
    /// Set the user. Afterwards the group can no longer be changed.
    SetUid,
    /// Try to become root again.
    TryRoot,
    /// Nothing: root is gone for good.
    Dropped,
    /// Give up: this step failed.
    Failed(DropFailure),
}

/// Why privileges were not dropped.
#[derive(Debug, Clone, Copy, PartialEq, Eq, Structural)]
pub enum DropFailure {
    Groups,
    Gid,
    Uid,
    /// The process could become root again.
    RootRegained,
}

/// The step after `step`, given whether the system let it happen.
pub open spec fn step_after(step: DropStep, succeeded: bool) -> DropStep {
    match step {
        DropStep::SetGroups => if succeeded {
            DropStep::SetGid
        } else {
            DropStep::Failed(DropFailure::Groups)
        },
        DropStep::SetGid => if succeeded {
            DropStep::SetUid
        } else {
            DropStep::Failed(DropFailure::Gid)
        },
        DropStep::SetUid => if succeeded {
            DropStep::TryRoot
        } else {
            DropStep::Failed(DropFailure::Uid)
        },
        DropStep::TryRoot => if succeeded {
            DropStep::Failed(DropFailure::RootRegained)
        } else {
            DropStep::Dropped
        },
        DropStep::Dropped => DropStep::Dropped,
        DropStep::Failed(why) => DropStep::Failed(why),
    }
}

/// The step after `step`, given whether the system let it happen.
pub fn next_drop_step(step: DropStep, succeeded: bool) -> (r: DropStep)
    ensures
        r == step_after(step, succeeded),
{
    match step {
        DropStep::SetGroups => if succeeded {
            DropStep::SetGid
        } else {
            DropStep::Failed(DropFailure::Groups)
        },
        DropStep::SetGid => if succeeded {
            DropStep::SetUid
        } else {
            DropStep::Failed(DropFailure::Gid)
        },
        DropStep::SetUid => if succeeded {
            DropStep::TryRoot
        } else {
            DropStep::Failed(DropFailure::Uid)
        },
        DropStep::TryRoot => if succeeded {
            DropStep::Failed(DropFailure::RootRegained)
        } else {
            DropStep::Dropped
        },
        DropStep::Dropped => DropStep::Dropped,
        DropStep::Failed(why) => DropStep::Failed(why),
    }
}

/// The step reached from the start when the system answers as in `answers`.
pub open spec fn step_reached(answers: Seq<bool>) -> DropStep
    decreases answers.len(),
{
    if answers.len() == 0 {
        DropStep::SetGroups
    } else {
        step_after(step_reached(answers.drop_last()), answers.last())
    }
}

/// Privileges count as dropped exactly when groups, group and user were set,
/// in this order, and the attempt to become root again failed.
pub proof fn dropped_iff_all_steps_succeeded(answers: Seq<bool>)
    ensures
        step_reached(answers) == DropStep::Dropped <==> {
            &&& answers.len() >= 4
            &&& answers[0]
            &&& answers[1]
            &&& answers[2]
            &&& !answers[3]
        },
{
    lemma_steps(answers);
}

/// The step reached, spelled out.
proof fn lemma_steps(answers: Seq<bool>)
    ensures
        step_reached(answers) == if answers.len() == 0 {
            DropStep::SetGroups
        } else if !answers[0] {
            DropStep::Failed(DropFailure::Groups)
        } else if answers.len() == 1 {
            DropStep::SetGid
        } else if !answers[1] {
            DropStep::Failed(DropFailure::Gid)
        } else if answers.len() == 2 {
            DropStep::SetUid
        } else if !answers[2] {
            DropStep::Failed(DropFailure::Uid)
        } else if answers.len() == 3 {
            DropStep::TryRoot
        } else if answers[3] {
            DropStep::Failed(DropFailure::RootRegained)
        } else {
            DropStep::Dropped
        },
    decreases answers.len(),
{
    if answers.len() > 0 {
        lemma_steps(answers.drop_last());
    }
}

/// The name that stops the relay from starting is the first, in the order
/// given, for which no interface of that name is up.
pub proof fn first_missing_name_is_reported(interfaces: Seq<Interface>, names: Seq<String>)
    ensures
        match first_missing(interfaces, names) {
            Some(name) => exists|i: int|
                {
                    &&& 0 <= i < names.len()
                    &&& (#[trigger] names[i])@ == name
                    &&& forall|k: int|
                        0 <= k < interfaces.len() && (#[trigger] interfaces[k]).name@ == name
                            ==> !interfaces[k].is_up
                    &&& forall|j: int|
                        0 <= j < i ==> exists|k: int|
                            0 <= k < interfaces.len() && (#[trigger] interfaces[k]).name@ == (
                            #[trigger] names[j])@ && interfaces[k].is_up
                },
            None => forall|j: int|
                0 <= j < names.len() ==> exists|k: int|
                    0 <= k < interfaces.len() && (#[trigger] interfaces[k]).name@ == (
                    #[trigger] names[j])@ && interfaces[k].is_up,
        },
    decreases names.len(),
{
    if names.len() > 0 && is_up(interfaces, names[0]@) {
        let rest = names.drop_first();
        first_missing_name_is_reported(interfaces, rest);
        if let Some(name) = first_missing(interfaces, rest) {
            let i = choose|i: int|
                {
                    &&& 0 <= i < rest.len()
                    &&& (#[trigger] rest[i])@ == name
                    &&& forall|k: int|
                        0 <= k < interfaces.len() && (#[trigger] interfaces[k]).name@ == name
                            ==> !interfaces[k].is_up
                    &&& forall|j: int|
                        0 <= j < i ==> exists|k: int|
                            0 <= k < interfaces.len() && (#[trigger] interfaces[k]).name@ == (
                            #[trigger] rest[j])@ && interfaces[k].is_up
                };
            assert(names[i + 1]@ == name);
            assert forall|j: int| 0 <= j < i + 1 implies exists|k: int|
                0 <= k < interfaces.len() && (#[trigger] interfaces[k]).name@ == (
                #[trigger] names[j])@ && interfaces[k].is_up by {
                if j > 0 {
                    assert(names[j] == rest[j - 1]);
                }
            }
        } else {
            assert forall|j: int| 0 <= j < names.len() implies exists|k: int|
                0 <= k < interfaces.len() && (#[trigger] interfaces[k]).name@ == (
                #[trigger] names[j])@ && interfaces[k].is_up by {
                if j > 0 {
                    assert(names[j] == rest[j - 1]);
                }
            }
        }
    } else if names.len() > 0 {
        assert(names[0]@ == first_missing(interfaces, names)->0);
    }
}

/// Rules deny everything exactly when none of them allows anything.
pub proof fn all_is_denied_iff_nothing_allows(rules: Seq<RuleView>)
    ensures
        denies_all(rules) <==> !(exists|i: int|
            0 <= i < rules.len() && (#[trigger] rules[i]).action == Action::Allow),
{
    if denies_all(rules) {
        assert forall|i: int| 0 <= i < rules.len() implies (#[trigger] rules[i]).action
            != Action::Allow by {}
    }
}

/// The way from root: the supplementary groups, then the group, then the user,
/// then an attempt to become root again that has to fail; the first step that
/// goes wrong ends it, and nothing comes after the end.
pub proof fn drop_steps_come_in_order(answers: Seq<bool>)
    ensures
        step_reached(answers) == if answers.len() == 0 {
            DropStep::SetGroups
        } else if !answers[0] {
            DropStep::Failed(DropFailure::Groups)
        } else if answers.len() == 1 {
            DropStep::SetGid
        } else if !answers[1] {
            DropStep::Failed(DropFailure::Gid)
        } else if answers.len() == 2 {
            DropStep::SetUid
        } else if !answers[2] {
            DropStep::Failed(DropFailure::Uid)
        } else if answers.len() == 3 {
            DropStep::TryRoot
        } else if answers[3] {
            DropStep::Failed(DropFailure::RootRegained)
        } else {
            DropStep::Dropped
        },
{
    lemma_steps(answers);
}

} // verus!
