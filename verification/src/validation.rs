//! Checking a loaded scenario against the rules of the file format.

use vstd::prelude::*;

use crate::error::ConfigLoadError;
use crate::models::{Attacker, Defender, ScenarioConfig};

verus! {

/// Whether some configured defender is named `name`.
pub open spec fn names_defender(defenders: Seq<Defender>, name: Seq<char>) -> bool {
    exists|j: int| 0 <= j < defenders.len() && (#[trigger] defenders[j]).name@ == name
}

/// Whether a scenario follows the file format's rules: every defender can
/// take at least one hit (staying power of at least 1), and every attacker
/// targets a configured defender by its exact name.
pub open spec fn scenario_valid(config: ScenarioConfig) -> bool {
    &&& forall|j: int|
        0 <= j < config.defenders@.len() ==> (#[trigger] config.defenders@[j]).staying_power >= 1
    &&& forall|a: int|
        0 <= a < config.attackers@.len() ==> names_defender(
            config.defenders@,
            (#[trigger] config.attackers@[a]).target_name@,
        )
}

/// The message for a defender without staying power.
pub open spec fn no_staying_power_message(name: Seq<char>) -> Seq<char> {
    "Defender has no staying power: "@ + name
}

/// The message for an attacker whose target is not configured.
pub open spec fn unknown_target_message(attacker: Seq<char>, target: Seq<char>) -> Seq<char> {
    "Attacker "@ + attacker + " targets an unknown defender: "@ + target
}

/// Whether `text` reports one of the scenario's rule violations.
pub open spec fn reports_violation(config: ScenarioConfig, text: Seq<char>) -> bool {
    ||| exists|j: int|
        0 <= j < config.defenders@.len() && (#[trigger] config.defenders@[j]).staying_power == 0
            && text == no_staying_power_message(config.defenders@[j].name@)
    ||| exists|a: int|
        0 <= a < config.attackers@.len() && !names_defender(
            config.defenders@,
            (#[trigger] config.attackers@[a]).target_name@,
        ) && text == unknown_target_message(
            config.attackers@[a].name@,
            config.attackers@[a].target_name@,
        )
}

/// Whether some configured defender is named `name`.
fn find_defender(defenders: &Vec<Defender>, name: &String) -> (found: bool)
    ensures
        found == names_defender(defenders@, name@),
{
    let mut j: usize = 0;
    while j < defenders.len()
        invariant
            0 <= j <= defenders.len(),
            forall|k: int| 0 <= k < j ==> (#[trigger] defenders@[k]).name@ != name@,
        decreases defenders.len() - j,
    {
        if defenders[j].name == *name {
            return true;
        }
        j = j + 1;
    }
    false
}

/// The message for a defender without staying power.
fn no_staying_power(d: &Defender) -> (m: String)
    ensures
        m@ == no_staying_power_message(d.name@),
{
    let mut m = "Defender has no staying power: ".to_string();
    proof {
        reveal_strlit("Defender has no staying power: ");
    }
    m.append(d.name.as_str());
    m
}

/// The message for an attacker whose target is not configured.
fn unknown_target(a: &Attacker) -> (m: String)
    ensures
        m@ == unknown_target_message(a.name@, a.target_name@),
{
    let mut m = "Attacker ".to_string();
    m.append(a.name.as_str());
    m.append(" targets an unknown defender: ");
    m.append(a.target_name.as_str());
    m
}

/// Checks a loaded scenario: every defender must have a staying power of at
/// least 1, and every attacker's target must be the exact name of a
/// configured defender.  The error names the first defender, then the
/// first attacker, that breaks a rule.
pub fn validate_scenario(config: &ScenarioConfig) -> (r: Result<(), ConfigLoadError>)
    ensures
        r is Ok <==> scenario_valid(*config),
        r matches Err(e) ==> reports_violation(*config, e.text()),
{
    let mut j: usize = 0;
    while j < config.defenders.len()
        invariant
            0 <= j <= config.defenders.len(),
            forall|k: int| 0 <= k < j ==> (#[trigger] config.defenders@[k]).staying_power >= 1,
        decreases config.defenders.len() - j,
    {
        if config.defenders[j].staying_power == 0 {
            return Err(ConfigLoadError::new(no_staying_power(&config.defenders[j])));
        }
        j = j + 1;
    }
    let mut a: usize = 0;
    while a < config.attackers.len()
        invariant
            0 <= a <= config.attackers.len(),
            forall|k: int|
                0 <= k < config.defenders@.len() ==> (#[trigger] config.defenders@[k]).staying_power
                    >= 1,
            forall|k: int|
                0 <= k < a ==> names_defender(
                    config.defenders@,
                    (#[trigger] config.attackers@[k]).target_name@,
                ),
        decreases config.attackers.len() - a,
    {
        if !find_defender(&config.defenders, &config.attackers[a].target_name) {
            return Err(ConfigLoadError::new(unknown_target(&config.attackers[a])));
        }
        a = a + 1;
    }
    Ok(())
}

} // verus!
