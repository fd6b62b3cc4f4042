use vstd::prelude::*;

verus! {

/// Engagement doctrine for a defender platform.
///
/// - `ShootLookShoot`: fire one interceptor per threat, assess the result,
///   then proceed to the next threat or defender.
/// - `ShootShootLook`: salvo-launch up to two interceptors at once per
///   threat; the threat is intercepted if any of them hits.
/// - `MaxDefense`: commit all available engagement capacity against a single
///   threat simultaneously before the next defender acts.
#[derive(Clone, Copy, Debug, PartialEq, Eq, Structural)]
pub enum Doctrine {
    ShootLookShoot,
    ShootShootLook,
    MaxDefense,
}

/// The display label of each doctrine.
pub open spec fn doctrine_label(d: Doctrine) -> Seq<char> {
    match d {
        Doctrine::ShootLookShoot => "Shoot-Look-Shoot"@,
        Doctrine::ShootShootLook => "Shoot-Shoot-Look"@,
        Doctrine::MaxDefense => "Max Defense"@,
    }
}

impl Doctrine {
    /// Human-readable label for display in the UI.
    pub fn label(&self) -> (s: &'static str)
        ensures
            s@ == doctrine_label(*self),
    {
        proof {
            reveal_strlit("Shoot-Look-Shoot");
            reveal_strlit("Shoot-Shoot-Look");
            reveal_strlit("Max Defense");
        }
        match self {
            Doctrine::ShootLookShoot => "Shoot-Look-Shoot",
            Doctrine::ShootShootLook => "Shoot-Shoot-Look",
            Doctrine::MaxDefense => "Max Defense",
        }
    }
}

/// A resolved probability, in the integer form the engine reads.
///
/// A roll draws a 64-bit random word `w`; it succeeds when `w / 2048`
/// (the top 53 bits of the word, i.e. the mantissa of a uniform draw in
/// `[0, 1)` scaled by 2^53) is below `bound`.  `rank` orders chances the
/// way the probabilities themselves are ordered: a higher probability has
/// a higher or equal rank, and equal probabilities have equal ranks.
#[derive(Clone, Copy, Debug, PartialEq, Eq, Structural)]
pub struct Chance {
    pub rank: u64,
    pub bound: u64,
}

/// The number of distinct uniform draws a roll distinguishes (2^53).
pub const ROLL_SCALE: u64 = 9007199254740992;

/// The chance that stands for the probability 0.0.
pub open spec fn zero_chance() -> Chance {
    Chance { rank: 0x8000_0000_0000_0000, bound: 1 }
}

/// Whether a roll with the random word `draw` succeeds against `c`.
pub open spec fn roll_succeeds(draw: u64, c: Chance) -> bool {
    draw / 2048 < c.bound
}

impl Chance {
    /// The chance of the probability 0.0: only the lowest draw succeeds,
    /// exactly as `0.0 <= 0.0` holds for the uniform value 0.0.
    pub fn zero() -> (c: Chance)
        ensures
            c == zero_chance(),
    {
        Chance { rank: 0x8000_0000_0000_0000, bound: 1 }
    }

    /// Whether a roll with the random word `draw` succeeds.
    pub fn succeeds(&self, draw: u64) -> (b: bool)
        ensures
            b == roll_succeeds(draw, *self),
    {
        draw / 2048 < self.bound
    }
}

// ============================================================
// CONFIGURATION MODELS
// ============================================================

/// A scenario: its metadata, the defending platforms and the attackers.
#[derive(Debug)]
pub struct ScenarioConfig {
    pub scenario: ScenarioMeta,
    pub defenders: Vec<Defender>,
    pub attackers: Vec<Attacker>,
}

/// Scenario metadata.
#[derive(Debug)]
pub struct ScenarioMeta {
    pub name: String,
    pub description: Option<String>,
    pub iterations: Option<u32>,
}

/// A defending platform as configured.  Its PkD distribution is resolved
/// into a `Chance` for each run by the caller.
#[derive(Debug)]
pub struct Defender {
    pub name: String,
    pub staying_power: u32,
    pub magazine_depth: u32,
    pub max_engagement_capacity: u32,
    pub doctrine: Doctrine,
}

/// An attacker as configured.  Its PKO distribution is resolved into a
/// `Chance` for each step by the caller; `pko_label` is its display form.
#[derive(Debug)]
pub struct Attacker {
    pub name: String,
    pub target_name: String,
    pub salvo_schedule: Vec<u32>,
    pub pko_label: String,
}

/// The number of Monte Carlo iterations a scenario asks for (1000 when it
/// does not say).
pub open spec fn spec_iteration_count(meta: ScenarioMeta) -> u32 {
    match meta.iterations {
        Some(n) => n,
        None => 1000,
    }
}

impl ScenarioMeta {
    /// The number of Monte Carlo iterations (1000 when unspecified).
    pub fn iteration_count(&self) -> (n: u32)
        ensures
            n == spec_iteration_count(*self),
    {
        match self.iterations {
            Some(n) => n,
            None => 1000,
        }
    }
}

// ============================================================
// RUNTIME STATE  (mutable per-iteration)
// ============================================================

/// A defender's state during one run.
#[derive(Debug)]
pub struct RunDefender {
    pub name: String,
    pub staying_power: u32,
    pub hits_taken: u32,
    pub magazine_depth: u32,
    pub max_engagement_capacity: u32,
    pub pkd: Chance,
    pub doctrine: Doctrine,
}

/// A missile in flight towards its target.
#[derive(Debug)]
pub struct IncomingThreat {
    pub target_name: String,
    pub pko: Chance,
}

impl Clone for RunDefender {
    fn clone(&self) -> (r: Self)
        ensures
            r == *self,
    {
        RunDefender {
            name: self.name.clone(),
            staying_power: self.staying_power,
            hits_taken: self.hits_taken,
            magazine_depth: self.magazine_depth,
            max_engagement_capacity: self.max_engagement_capacity,
            pkd: self.pkd,
            doctrine: self.doctrine,
        }
    }
}

impl Clone for IncomingThreat {
    fn clone(&self) -> (r: Self)
        ensures
            r == *self,
    {
        IncomingThreat { target_name: self.target_name.clone(), pko: self.pko }
    }
}

/// The run state a configured defender starts a run with, before its PkD
/// is resolved.
pub open spec fn spec_run_defender(d: Defender) -> RunDefender {
    RunDefender {
        name: d.name,
        staying_power: d.staying_power,
        hits_taken: 0,
        magazine_depth: d.magazine_depth,
        max_engagement_capacity: d.max_engagement_capacity,
        pkd: zero_chance(),
        doctrine: d.doctrine,
    }
}

impl<'a> From<&'a Defender> for RunDefender {
    /// Structural copy; `pkd` is the zero chance and is resolved separately
    /// for each run.
    fn from(d: &'a Defender) -> (r: Self) {
        RunDefender {
            name: d.name.clone(),
            staying_power: d.staying_power,
            hits_taken: 0,
            magazine_depth: d.magazine_depth,
            max_engagement_capacity: d.max_engagement_capacity,
            pkd: Chance::zero(),
            doctrine: d.doctrine,
        }
    }
}

impl<'a> vstd::std_specs::convert::FromSpecImpl<&'a Defender> for RunDefender {
    open spec fn obeys_from_spec() -> bool {
        true
    }

    open spec fn from_spec(d: &'a Defender) -> Self {
        spec_run_defender(*d)
    }
}

// ============================================================
// AGGREGATION  (accumulated across iterations)
// ============================================================

/// Outcome counts of one defender, summed over the runs of a Monte Carlo
/// simulation.
#[derive(Debug)]
pub struct DefenderStats {
    pub survival_count: u32,
    pub total_hits_taken: u32,
    pub total_interceptors_spent: u32,
}

impl Default for DefenderStats {
    fn default() -> (s: Self)
        ensures
            s == (DefenderStats { survival_count: 0, total_hits_taken: 0, total_interceptors_spent: 0 }),
    {
        DefenderStats { survival_count: 0, total_hits_taken: 0, total_interceptors_spent: 0 }
    }
}

impl Clone for DefenderStats {
    fn clone(&self) -> (r: Self)
        ensures
            r == *self,
    {
        DefenderStats {
            survival_count: self.survival_count,
            total_hits_taken: self.total_hits_taken,
            total_interceptors_spent: self.total_interceptors_spent,
        }
    }
}

// ============================================================
// OUTPUT
// ============================================================

/// Result of a full Monte Carlo simulation.
#[derive(Debug)]
pub struct SimulationResult {
    pub scenario_name: String,
    pub iterations: u32,
    pub defenders: Vec<DefenderResult>,
    pub attackers: Vec<AttackerResult>,
}

/// Per-defender summary of a Monte Carlo simulation: the counts from which
/// the survival rate and the per-iteration averages are derived.
#[derive(Debug)]
pub struct DefenderResult {
    pub name: String,
    pub staying_power: u32,
    pub magazine_depth: u32,
    pub survival_count: u32,
    pub total_hits_taken: u32,
    pub total_interceptors_fired: u32,
}

/// Per-attacker summary for display in the results page.
#[derive(Debug)]
pub struct AttackerResult {
    pub name: String,
    pub target_name: String,
    pub total_missiles: u32,
    pub pko_label: String,
}

// ============================================================
// STEP-THROUGH EVENT TYPES
// ============================================================

/// One attacker's salvo during a single time step.
#[derive(Debug)]
pub struct ThreatLaunch {
    pub attacker_name: String,
    pub target_name: String,
    pub missiles_fired: u32,
    pub pko_label: String,
}

/// Interception activity by a single defender during one step.
#[derive(Debug)]
pub struct InterceptionEvent {
    pub defender_name: String,
    pub doctrine_label: String,
    pub interceptors_fired: u32,
    pub threats_intercepted: u32,
    pub max_engagement_capacity: u32,
}

/// Damage from surviving threats against a single target.
#[derive(Debug)]
pub struct ImpactEvent {
    pub target_name: String,
    pub missiles_leaked: u32,
    pub hits_scored: u32,
    pub hp_before: u32,
    pub hp_after: u32,
    pub destroyed: bool,
}

/// A full snapshot of one time step in an interactive simulation.
#[derive(Debug)]
pub struct StepRecord {
    pub step: usize,
    pub max_steps: usize,
    pub is_complete: bool,
    pub threat_launches: Vec<ThreatLaunch>,
    pub interceptions: Vec<InterceptionEvent>,
    pub impacts: Vec<ImpactEvent>,
    pub defender_snapshots: Vec<RunDefender>,
}

} // verus!
