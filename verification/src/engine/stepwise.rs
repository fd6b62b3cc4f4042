//! Step-through simulation: one time step at a time, with the events of
//! each step recorded for display.

use vstd::prelude::*;

use crate::draws::{DrawSource, RandomDraws};
use crate::engine::impact::{lemma_impact_laws, only_damage_taken, terminal_impact_phase};
use crate::engine::interception::{
    extends,
    interception_phase,
    lemma_extends_trans,
    lemma_interception_laws,
    lemma_total_nonneg,
    only_magazine_spent,
    only_magazines_spent,
    spec_interception,
    total,
};
use crate::engine::ordering::{lemma_sort_names, names_of, lemma_sort_by_pkd, sort_by_pkd, spec_sort_by_pkd};
use crate::engine::run::{
    bears_name,
    initial_run,
    initialize_run,
    lemma_impact_room,
    lemma_sorted_within_aim,
    lemma_step_within_aim,
    magazine_untouched,
    scenario_fits,
    spec_step,
    within_aim,
};
use crate::engine::threats::{
    aimed_fired_before,
    aimed_total,
    lemma_aimed_counts,
    lemma_aimed_from_count,
    aimed_count,
    build_launch_events,
    determine_max_steps,
    generate_threat_pool,
    launched_sum,
    lemma_launches_match_pool,
    spec_launch_events,
    spec_max_steps,
    spec_threat_pool,
};
use crate::models::{
    Attacker,
    Chance,
    Defender,
    ImpactEvent,
    IncomingThreat,
    InterceptionEvent,
    RunDefender,
    ScenarioConfig,
    StepRecord,
    doctrine_label,
};

verus! {

/// The indices below `n` of the defenders that fired interceptors.
pub open spec fn fired_indices(before: Seq<RunDefender>, after: Seq<RunDefender>, n: int) -> Seq<
    int,
>
    decreases n,
{
    if n <= 0 {
        Seq::empty()
    } else {
        let rest = fired_indices(before, after, n - 1);
        if before[n - 1].magazine_depth > after[n - 1].magazine_depth {
            rest.push(n - 1)
        } else {
            rest
        }
    }
}

/// The indices below `n` of the defenders that were hit or had threats
/// leak through to them.
pub open spec fn impact_indices(
    before: Seq<RunDefender>,
    after: Seq<RunDefender>,
    surviving: Seq<IncomingThreat>,
    n: int,
) -> Seq<int>
    decreases n,
{
    if n <= 0 {
        Seq::empty()
    } else {
        let rest = impact_indices(before, after, surviving, n - 1);
        if after[n - 1].hits_taken > before[n - 1].hits_taken || aimed_count(
            surviving,
            after[n - 1].name@,
        ) > 0 {
            rest.push(n - 1)
        } else {
            rest
        }
    }
}

/// The interception event of a defender that went from `before` to `after`
/// destroying `kills` threats.
pub open spec fn interception_event_is(
    e: InterceptionEvent,
    before: RunDefender,
    after: RunDefender,
    kills: u32,
) -> bool {
    &&& e.defender_name == after.name
    &&& e.doctrine_label@ == doctrine_label(after.doctrine)
    &&& e.interceptors_fired == before.magazine_depth - after.magazine_depth
    &&& e.threats_intercepted == kills
    &&& e.max_engagement_capacity == after.max_engagement_capacity
}

/// The impact event of a defender that went from `before` to `after` with
/// `leaked` threats aimed at it getting through.
pub open spec fn impact_event_is(
    e: ImpactEvent,
    before: RunDefender,
    after: RunDefender,
    leaked: nat,
) -> bool {
    &&& e.target_name == after.name
    &&& e.missiles_leaked == leaked
    &&& e.hits_scored == after.hits_taken - before.hits_taken
    &&& e.hp_before == before.staying_power
    &&& e.hp_after == after.staying_power
    &&& e.destroyed == (after.staying_power == 0)
}

/// The interception events of a step: one per defender that fired, in
/// defender order.
pub open spec fn interceptions_match(
    events: Seq<InterceptionEvent>,
    before: Seq<RunDefender>,
    after: Seq<RunDefender>,
    kills: Seq<u32>,
) -> bool {
    let idx = fired_indices(before, after, before.len() as int);
    &&& events.len() == idx.len()
    &&& forall|k: int|
        0 <= k < events.len() ==> interception_event_is(
            #[trigger] events[k],
            before[idx[k]],
            after[idx[k]],
            kills[idx[k]],
        )
}

/// The impact events of a step: one per defender that was hit or had
/// threats leak through to it, in defender order.
pub open spec fn impacts_match(
    events: Seq<ImpactEvent>,
    before: Seq<RunDefender>,
    after: Seq<RunDefender>,
    surviving: Seq<IncomingThreat>,
) -> bool {
    let idx = impact_indices(before, after, surviving, before.len() as int);
    &&& events.len() == idx.len()
    &&& forall|k: int|
        0 <= k < events.len() ==> impact_event_is(
            #[trigger] events[k],
            before[idx[k]],
            after[idx[k]],
            aimed_count(surviving, after[idx[k]].name@),
        )
}

/// Whether `record` and the defenders `after` are what the step `step`
/// produces from `defenders`, reading random words from `pos` of `draws`.
pub open spec fn step_record_matches(
    defenders: Seq<RunDefender>,
    attackers: Seq<Attacker>,
    step: int,
    pkos: Seq<Chance>,
    draws: Seq<u64>,
    pos: int,
    after: Seq<RunDefender>,
    record: StepRecord,
) -> bool {
    let pool = spec_threat_pool(attackers, step, pkos);
    &&& after == spec_step(defenders, attackers, step, pkos, draws, pos).0
    &&& record.threat_launches@ == spec_launch_events(attackers, step)
    &&& record.defender_snapshots@ == after
    &&& if pool.len() == 0 {
        &&& record.interceptions@.len() == 0
        &&& record.impacts@.len() == 0
    } else {
        let sorted = spec_sort_by_pkd(defenders);
        let outcome = spec_interception(sorted, pool, draws, pos);
        &&& interceptions_match(record.interceptions@, sorted, outcome.defenders, outcome.kills)
        &&& impacts_match(record.impacts@, outcome.defenders, after, outcome.surviving)
    }
}

/// Counts the threats among `threats` aimed at `name`.
fn count_leaked(threats: &Vec<IncomingThreat>, name: &String) -> (n: u32)
    requires
        aimed_count(threats@, name@) <= u32::MAX,
    ensures
        n == aimed_count(threats@, name@),
{
    let mut n: u32 = 0;
    let mut j: usize = 0;
    while j < threats.len()
        invariant
            0 <= j <= threats.len(),
            aimed_count(threats@, name@) <= u32::MAX,
            n == aimed_count(threats@.take(j as int), name@),
        decreases threats.len() - j,
    {
        assert(threats@.take(j + 1).drop_last() =~= threats@.take(j as int));
        proof {
            lemma_aimed_from_count(threats@, name@, j + 1);
        }
        if threats[j].target_name == *name {
            n = n + 1;
        }
        j = j + 1;
    }
    assert(threats@.take(threats.len() as int) =~= threats@);
    n
}

/// The interception events of a step.
fn interception_events(
    before: &Vec<RunDefender>,
    after: &Vec<RunDefender>,
    kills: &Vec<u32>,
) -> (events: Vec<InterceptionEvent>)
    requires
        only_magazines_spent(after@, before@),
        kills@.len() == before@.len(),
    ensures
        interceptions_match(events@, before@, after@, kills@),
{
    let mut events: Vec<InterceptionEvent> = Vec::new();
    let mut i: usize = 0;
    while i < after.len()
        invariant
            0 <= i <= after.len(),
            only_magazines_spent(after@, before@),
            kills@.len() == before@.len(),
            events@.len() == fired_indices(before@, after@, i as int).len(),
            forall|k: int|
                0 <= k < events@.len() ==> interception_event_is(
                    #[trigger] events@[k],
                    before@[fired_indices(before@, after@, i as int)[k]],
                    after@[fired_indices(before@, after@, i as int)[k]],
                    kills@[fired_indices(before@, after@, i as int)[k]],
                ),
        decreases after.len() - i,
    {
        assert(only_magazine_spent(after@[i as int], before@[i as int]));
        let fired = before[i].magazine_depth - after[i].magazine_depth;
        if fired > 0 {
            let label = after[i].doctrine.label();
            events.push(
                InterceptionEvent {
                    defender_name: after[i].name.clone(),
                    doctrine_label: label.to_string(),
                    interceptors_fired: fired,
                    threats_intercepted: kills[i],
                    max_engagement_capacity: after[i].max_engagement_capacity,
                },
            );
        }
        i = i + 1;
    }
    events
}

/// The impact events of a step.
fn impact_events(
    before: &Vec<RunDefender>,
    after: &Vec<RunDefender>,
    surviving: &Vec<IncomingThreat>,
) -> (events: Vec<ImpactEvent>)
    requires
        only_damage_taken(after@, before@),
        forall|i: int|
            0 <= i < after@.len() ==> #[trigger] after@[i].hits_taken >= before@[i].hits_taken,
        forall|i: int|
            0 <= i < after@.len() ==> aimed_count(surviving@, (#[trigger] after@[i]).name@)
                <= u32::MAX,
    ensures
        impacts_match(events@, before@, after@, surviving@),
{
    let mut events: Vec<ImpactEvent> = Vec::new();
    let mut i: usize = 0;
    while i < after.len()
        invariant
            0 <= i <= after.len(),
            only_damage_taken(after@, before@),
            forall|i: int|
                0 <= i < after@.len() ==> #[trigger] after@[i].hits_taken >= before@[i].hits_taken,
            forall|i: int|
                0 <= i < after@.len() ==> aimed_count(surviving@, (#[trigger] after@[i]).name@)
                    <= u32::MAX,
            events@.len() == impact_indices(before@, after@, surviving@, i as int).len(),
            forall|k: int|
                0 <= k < events@.len() ==> impact_event_is(
                    #[trigger] events@[k],
                    before@[impact_indices(before@, after@, surviving@, i as int)[k]],
                    after@[impact_indices(before@, after@, surviving@, i as int)[k]],
                    aimed_count(
                        surviving@,
                        after@[impact_indices(before@, after@, surviving@, i as int)[k]].name@,
                    ),
                ),
        decreases after.len() - i,
    {
        assert(after@[i as int].hits_taken >= before@[i as int].hits_taken);
        let hits_scored = after[i].hits_taken - before[i].hits_taken;
        let leaked = count_leaked(surviving, &after[i].name);
        if hits_scored > 0 || leaked > 0 {
            events.push(
                ImpactEvent {
                    target_name: after[i].name.clone(),
                    missiles_leaked: leaked,
                    hits_scored,
                    hp_before: before[i].staying_power,
                    hp_after: after[i].staying_power,
                    destroyed: after[i].staying_power == 0,
                },
            );
        }
        i = i + 1;
    }
    events
}

/// A copy of a list of defenders.
fn copy_defenders(defenders: &Vec<RunDefender>) -> (copy: Vec<RunDefender>)
    ensures
        copy@ == defenders@,
{
    let mut copy: Vec<RunDefender> = Vec::new();
    let mut i: usize = 0;
    while i < defenders.len()
        invariant
            0 <= i <= defenders.len(),
            copy@ == defenders@.take(i as int),
        decreases defenders.len() - i,
    {
        copy.push(defenders[i].clone());
        i = i + 1;
        assert(copy@ =~= defenders@.take(i as int));
    }
    assert(defenders@.take(defenders.len() as int) =~= defenders@);
    copy
}

/// `after` is `before` worn down by a step: the same name, engagement
/// capacity, PkD and doctrine, no more staying power or interceptors, no
/// fewer hits, and staying power lost only to hits taken.
pub open spec fn worn_from(after: RunDefender, before: RunDefender) -> bool {
    &&& after.name == before.name
    &&& after.max_engagement_capacity == before.max_engagement_capacity
    &&& after.pkd == before.pkd
    &&& after.doctrine == before.doctrine
    &&& after.staying_power <= before.staying_power
    &&& after.magazine_depth <= before.magazine_depth
    &&& after.hits_taken >= before.hits_taken
    &&& before.staying_power - after.staying_power <= after.hits_taken - before.hits_taken
}

/// Whether `r` is worn down from one of `before`.
pub open spec fn worn_from_one(r: RunDefender, before: Seq<RunDefender>) -> bool {
    exists|j: int| 0 <= j < before.len() && worn_from(r, #[trigger] before[j])
}

/// The defenders `after` are the defenders `before` worn down, in some
/// order: as many of them, each worn down from one of `before`, and each
/// name of `before` borne by one of `after`.
pub open spec fn all_worn_from(after: Seq<RunDefender>, before: Seq<RunDefender>) -> bool {
    &&& after.len() == before.len()
    &&& forall|i: int| 0 <= i < after.len() ==> #[trigger] worn_from_one(after[i], before)
    &&& forall|j: int| 0 <= j < before.len() ==> #[trigger] bears_name(after, before[j].name@)
}

/// `r` is within the configured defender `c`: the same name, engagement
/// capacity and doctrine, and no more staying power or interceptors.
pub open spec fn within_defender(r: RunDefender, c: Defender) -> bool {
    &&& r.name == c.name
    &&& r.max_engagement_capacity == c.max_engagement_capacity
    &&& r.doctrine == c.doctrine
    &&& r.staying_power <= c.staying_power
    &&& r.magazine_depth <= c.magazine_depth
}

/// Whether `r` is within one of the configured defenders.
pub open spec fn within_one(r: RunDefender, defenders: Seq<Defender>) -> bool {
    exists|j: int| 0 <= j < defenders.len() && within_defender(r, #[trigger] defenders[j])
}

/// The defenders of a run are within the configured ones: one per
/// configured defender, each within one of them, and each configured name
/// borne by one of them.
pub open spec fn within_config(run: Seq<RunDefender>, defenders: Seq<Defender>) -> bool {
    &&& run.len() == defenders.len()
    &&& forall|i: int| 0 <= i < run.len() ==> #[trigger] within_one(run[i], defenders)
    &&& forall|j: int| 0 <= j < defenders.len() ==> #[trigger] bears_name(run, defenders[j].name@)
}

/// The names of the configured defenders, in order.
pub open spec fn config_names(defenders: Seq<Defender>) -> Seq<Seq<char>> {
    defenders.map_values(|c: Defender| c.name@)
}

/// Wearing down keeps defenders within their configuration.
proof fn lemma_worn_within_config(
    before: Seq<RunDefender>,
    after: Seq<RunDefender>,
    defenders: Seq<Defender>,
)
    requires
        within_config(before, defenders),
        all_worn_from(after, before),
    ensures
        within_config(after, defenders),
{
    assert forall|i: int| 0 <= i < after.len() implies #[trigger] within_one(after[i], defenders) by {
        assert(worn_from_one(after[i], before));
        let b = choose|b: int| 0 <= b < before.len() && worn_from(after[i], #[trigger] before[b]);
        assert(within_one(before[b], defenders));
        let j = choose|j: int| 0 <= j < defenders.len() && within_defender(before[b], #[trigger] defenders[j]);
        assert(within_defender(after[i], defenders[j]));
    }
    assert forall|j: int| 0 <= j < defenders.len() implies #[trigger] bears_name(after, defenders[j].name@) by {
        assert(bears_name(before, defenders[j].name@));
        let b = choose|b: int| 0 <= b < before.len() && (#[trigger] before[b]).name@ == defenders[j].name@;
        assert(bears_name(after, before[b].name@));
    }
}

/// Defenders are worn down from themselves.
proof fn lemma_worn_refl(d: Seq<RunDefender>)
    ensures
        all_worn_from(d, d),
{
    assert forall|i: int| 0 <= i < d.len() implies #[trigger] worn_from_one(d[i], d) by {
        assert(worn_from(d[i], d[i]));
    }
    assert forall|j: int| 0 <= j < d.len() implies #[trigger] bears_name(d, d[j].name@) by {
        assert(d[j].name@ == d[j].name@);
    }
}

/// A step that sorts the defenders, spends interceptors and deals damage
/// wears them down.
proof fn lemma_step_wears(
    d0: Seq<RunDefender>,
    sorted: Seq<RunDefender>,
    mid: Seq<RunDefender>,
    after: Seq<RunDefender>,
)
    requires
        sorted.to_multiset() == d0.to_multiset(),
        sorted.len() == d0.len(),
        only_magazines_spent(mid, sorted),
        only_damage_taken(after, mid),
    ensures
        all_worn_from(after, d0),
{
    assert forall|i: int| 0 <= i < after.len() implies #[trigger] worn_from_one(after[i], d0) by {
        vstd::seq_lib::to_multiset_contains(sorted, sorted[i]);
        vstd::seq_lib::to_multiset_contains(d0, sorted[i]);
        assert(sorted.contains(sorted[i]));
        let j = choose|j: int| 0 <= j < d0.len() && d0[j] == sorted[i];
        assert(only_magazine_spent(mid[i], sorted[i]));
        assert(worn_from(after[i], d0[j]));
    }
    assert forall|j: int| 0 <= j < d0.len() implies #[trigger] bears_name(after, d0[j].name@) by {
        vstd::seq_lib::to_multiset_contains(d0, d0[j]);
        vstd::seq_lib::to_multiset_contains(sorted, d0[j]);
        assert(d0.contains(d0[j]));
        let i = choose|i: int| 0 <= i < sorted.len() && sorted[i] == d0[j];
        assert(only_magazine_spent(mid[i], sorted[i]));
        assert(after[i].name@ == d0[j].name@);
    }
}

/// Defenders within a fitting scenario's configuration bear names whose
/// aimed missiles fit in a `u32`.
proof fn lemma_config_names_fit(run: Seq<RunDefender>, config: ScenarioConfig)
    requires
        scenario_fits(config),
        within_config(run, config.defenders@),
    ensures
        forall|i: int|
            0 <= i < run.len() ==> aimed_total(config.attackers@, (#[trigger] run[i]).name@)
                <= u32::MAX,
{
    assert forall|i: int| 0 <= i < run.len() implies aimed_total(
        config.attackers@,
        (#[trigger] run[i]).name@,
    ) <= u32::MAX by {
        assert(within_one(run[i], config.defenders@));
        let j = choose|j: int|
            0 <= j < config.defenders@.len() && within_defender(run[i], #[trigger] config.defenders@[j]);
        assert(aimed_total(config.attackers@, config.defenders@[j].name@) <= u32::MAX);
    }
}

/// The smaller of two counts.
pub open spec fn min_nat(a: nat, b: nat) -> nat {
    if a <= b {
        a
    } else {
        b
    }
}

/// The threats the interception events of a step report destroyed.
pub open spec fn intercepted_total(events: Seq<InterceptionEvent>) -> int
    decreases events.len(),
{
    if events.len() == 0 {
        0
    } else {
        intercepted_total(events.drop_last()) + events.last().threats_intercepted
    }
}

/// The sum of `kills` at the indices `idx`.
pub open spec fn kills_at(kills: Seq<u32>, idx: Seq<int>) -> int
    decreases idx.len(),
{
    if idx.len() == 0 {
        0
    } else {
        kills_at(kills, idx.drop_last()) + kills[idx.last()]
    }
}

/// Events that each report the kills at their index add up to the kills
/// at those indices.
proof fn lemma_intercepted_is_kills(
    events: Seq<InterceptionEvent>,
    kills: Seq<u32>,
    idx: Seq<int>,
)
    requires
        events.len() == idx.len(),
        forall|k: int| 0 <= k < events.len() ==> #[trigger] events[k].threats_intercepted == kills[idx[k]],
    ensures
        intercepted_total(events) == kills_at(kills, idx),
    decreases events.len(),
{
    if events.len() > 0 {
        lemma_intercepted_is_kills(events.drop_last(), kills, idx.drop_last());
    }
}

/// The kills at the defenders that fired are all the kills, since a
/// defender that fired nothing destroyed nothing.
proof fn lemma_fired_kills(before: Seq<RunDefender>, after: Seq<RunDefender>, kills: Seq<u32>, n: int)
    requires
        0 <= n <= before.len(),
        after.len() == before.len(),
        kills.len() == before.len(),
        forall|k: int|
            0 <= k < before.len() ==> #[trigger] kills[k] <= before[k].magazine_depth
                - after[k].magazine_depth,
    ensures
        kills_at(kills, fired_indices(before, after, n)) == total(kills.take(n)),
    decreases n,
{
    if n > 0 {
        lemma_fired_kills(before, after, kills, n - 1);
        assert(kills.take(n).drop_last() =~= kills.take(n - 1));
        assert(kills.take(n).last() == kills[n - 1]);
        assert(kills[n - 1] <= before[n - 1].magazine_depth - after[n - 1].magazine_depth);
        let rest = fired_indices(before, after, n - 1);
        if before[n - 1].magazine_depth > after[n - 1].magazine_depth {
            assert(rest.push(n - 1).drop_last() =~= rest);
            assert(kills_at(kills, rest.push(n - 1)) == kills_at(kills, rest) + kills[n - 1]);
        } else {
            assert(kills[n - 1] == 0);
        }
    }
}

/// The threats a step launched, the threats it destroyed and the threats
/// that got through: the interception records report exactly the threats
/// the defenders destroyed, so together with the threats that got through
/// they account for every missile the step's launch records list.
pub proof fn lemma_step_interceptions_account(
    defenders: Seq<RunDefender>,
    attackers: Seq<Attacker>,
    step: int,
    pkos: Seq<Chance>,
    draws: Seq<u64>,
    pos: int,
    after: Seq<RunDefender>,
    record: StepRecord,
)
    requires
        step_record_matches(defenders, attackers, step, pkos, draws, pos, after, record),
    ensures
        intercepted_total(record.interceptions@) + step_survivors(
            defenders,
            attackers,
            step,
            pkos,
            draws,
            pos,
        ).len() == launched_sum(record.threat_launches@),
{
    let pool = spec_threat_pool(attackers, step, pkos);
    lemma_launches_match_pool(attackers, step, pkos);
    if pool.len() == 0 {
        assert(record.interceptions@ =~= Seq::<InterceptionEvent>::empty());
    } else {
        let sorted = spec_sort_by_pkd(defenders);
        let outcome = spec_interception(sorted, pool, draws, pos);
        lemma_interception_laws(sorted, pool, draws, pos);
        lemma_sort_by_pkd(defenders);
        let idx = fired_indices(sorted, outcome.defenders, sorted.len() as int);
        lemma_intercepted_is_kills(record.interceptions@, outcome.kills, idx);
        lemma_fired_kills(sorted, outcome.defenders, outcome.kills, sorted.len() as int);
        assert(outcome.kills.take(sorted.len() as int) =~= outcome.kills);
    }
}

/// The threats of a step that no defender destroyed (none if nothing was
/// launched).
pub open spec fn step_survivors(
    defenders: Seq<RunDefender>,
    attackers: Seq<Attacker>,
    step: int,
    pkos: Seq<Chance>,
    draws: Seq<u64>,
    pos: int,
) -> Seq<IncomingThreat> {
    let pool = spec_threat_pool(attackers, step, pkos);
    if pool.len() == 0 {
        Seq::empty()
    } else {
        spec_interception(spec_sort_by_pkd(defenders), pool, draws, pos).surviving
    }
}

/// Drives an interactive step-through simulation, one time step at a time.
pub struct StepwiseSimulation {
    config: ScenarioConfig,
    defenders: Vec<RunDefender>,
    step: usize,
    max_steps: usize,
    draws: RandomDraws,
    finished: bool,
}

impl StepwiseSimulation {
    /// The scenario being simulated.
    pub closed spec fn scenario(&self) -> ScenarioConfig {
        self.config
    }

    /// The defenders' current state.
    pub closed spec fn current_defenders(&self) -> Seq<RunDefender> {
        self.defenders@
    }

    /// The index of the next step.
    pub closed spec fn next_step(&self) -> nat {
        self.step as nat
    }

    /// Whether every step has been taken.
    pub closed spec fn is_finished(&self) -> bool {
        self.finished
    }

    /// Every random word the simulation has drawn so far.
    pub closed spec fn drawn(&self) -> Seq<u64> {
        self.draws.drawn()
    }

    /// The simulation's invariant: the step count is the length of the
    /// longest schedule, the next step is within it, the simulation is
    /// finished exactly when every step has been taken, there is one run
    /// state per configured defender, within the configured defenders and
    /// bearing their names (as a permutation), and
    /// no defender has taken more hits than missiles were fired at its name
    /// so far, or spent interceptors when none was.
    pub closed spec fn wf(&self) -> bool {
        &&& self.max_steps == spec_max_steps(self.config.attackers@)
        &&& self.step <= self.max_steps
        &&& self.finished == (self.step >= self.max_steps)
        &&& scenario_fits(self.config)
        &&& self.defenders@.len() == self.config.defenders@.len()
        &&& within_config(self.defenders@, self.config.defenders@)
        &&& names_of(self.defenders@).to_multiset() == config_names(
            self.config.defenders@,
        ).to_multiset()
        &&& within_aim(
            self.defenders@,
            self.config.defenders@,
            self.config.attackers@,
            self.step as nat,
        )
    }

    /// Initialise a new step-through simulation from a scenario, the
    /// defenders' PkDs resolved to `pkds` for this run.  Random rolls come
    /// from a freshly seeded generator.
    pub fn new(config: ScenarioConfig, pkds: Vec<Chance>) -> (sim: Self)
        requires
            pkds@.len() == config.defenders@.len(),
            scenario_fits(config),
        ensures
            sim.wf(),
            sim.scenario() == config,
            sim.current_defenders() == initial_run(config.defenders@, pkds@),
            sim.next_step() == 0,
            sim.is_finished() == (spec_max_steps(config.attackers@) == 0),
            sim.drawn() == Seq::<u64>::empty(),
    {
        let max_steps = determine_max_steps(&config.attackers);
        let defenders = initialize_run(&config.defenders, &pkds);
        proof {
            let run = defenders@;
            let cfg = config.defenders@;
            assert forall|i: int| 0 <= i < run.len() implies #[trigger] within_one(run[i], cfg) by {
                assert(within_defender(run[i], cfg[i]));
            }
            assert forall|j: int| 0 <= j < cfg.len() implies #[trigger] bears_name(run, cfg[j].name@) by {
                assert(run[j].name@ == cfg[j].name@);
            }
            assert(names_of(run) =~= config_names(cfg));
            assert forall|i: int| 0 <= i < run.len() implies {
                &&& (#[trigger] run[i]).hits_taken <= aimed_fired_before(
                    config.attackers@,
                    run[i].name@,
                    0,
                )
                &&& aimed_fired_before(config.attackers@, run[i].name@, 0) == 0
                    ==> magazine_untouched(cfg, run[i])
            } by {
                lemma_aimed_counts(config.attackers@, run[i].name@, 0, Seq::empty());
                assert(run[i].name@ == cfg[i].name@);
            }
        }
        StepwiseSimulation {
            config,
            defenders,
            step: 0,
            max_steps,
            draws: RandomDraws::new(),
            finished: max_steps == 0,
        }
    }

    /// Advance one time step and return the events for that step; `pkos`
    /// are the PKO chances of the attackers' missiles at this step.
    /// Returns `None`, changing nothing, if the simulation is already
    /// complete.
    ///
    /// A step launches every attacker's salvo; if anything is launched the
    /// defenders are sorted by PkD, intercept, and the surviving threats roll
    /// for impact.  The record lists the launches, the interceptions of each
    /// defender that fired, the impacts on each defender hit or leaked
    /// through to, and the defenders afterwards.
    pub fn advance(&mut self, pkos: &Vec<Chance>) -> (record: Option<StepRecord>)
        requires
            old(self).wf(),
            pkos@.len() == old(self).scenario().attackers@.len(),
        ensures
            final(self).wf(),
            final(self).scenario() == old(self).scenario(),
            extends(final(self).drawn(), old(self).drawn()),
            all_worn_from(final(self).current_defenders(), old(self).current_defenders()),
            Self::advanced(*old(self), *final(self), record),
            old(self).is_finished() ==> {
                &&& record is None
                &&& final(self).current_defenders() == old(self).current_defenders()
                &&& final(self).next_step() == old(self).next_step()
                &&& final(self).is_finished()
                &&& final(self).drawn() == old(self).drawn()
            },
            !old(self).is_finished() ==> (record matches Some(r) && {
                &&& r.step == old(self).next_step()
                &&& r.max_steps == spec_max_steps(old(self).scenario().attackers@)
                &&& final(self).next_step() == old(self).next_step() + 1
                &&& final(self).is_finished() == (old(self).next_step() + 1 >= spec_max_steps(
                    old(self).scenario().attackers@,
                ))
                &&& r.is_complete == final(self).is_finished()
                &&& step_record_matches(
                    old(self).current_defenders(),
                    old(self).scenario().attackers@,
                    old(self).next_step() as int,
                    pkos@,
                    final(self).drawn(),
                    old(self).drawn().len() as int,
                    final(self).current_defenders(),
                    r,
                )
                &&& intercepted_total(r.interceptions@) + step_survivors(
                    old(self).current_defenders(),
                    old(self).scenario().attackers@,
                    old(self).next_step() as int,
                    pkos@,
                    final(self).drawn(),
                    old(self).drawn().len() as int,
                ).len() == launched_sum(r.threat_launches@)
            }),
    {
        if self.finished {
            proof {
                lemma_worn_refl(self.defenders@);
            }
            return None;
        }
        let ghost d0 = self.defenders@;
        let ghost start = self.draws.drawn();
        let ghost attackers = self.config.attackers@;
        let step = self.step;
        self.step = self.step + 1;
        let is_complete = self.step >= self.max_steps;
        if is_complete {
            self.finished = true;
        }
        proof {
            lemma_config_names_fit(d0, self.config);
        }
        let threat_pool = generate_threat_pool(&self.config.attackers, step, pkos);
        let threat_launches = build_launch_events(&self.config.attackers, step);
        if threat_pool.len() == 0 {
            assert(extends(self.draws.drawn(), self.draws.drawn()));
            proof {
                lemma_worn_refl(self.defenders@);
                assert forall|i: int| 0 <= i < d0.len() implies {
                    &&& (#[trigger] d0[i]).hits_taken <= aimed_fired_before(
                        attackers,
                        d0[i].name@,
                        (step + 1) as nat,
                    )
                    &&& aimed_fired_before(attackers, d0[i].name@, (step + 1) as nat) == 0
                        ==> magazine_untouched(self.config.defenders@, d0[i])
                } by {
                    lemma_aimed_counts(attackers, d0[i].name@, step as nat, pkos@);
                }
            }
            let rec = StepRecord {
                step,
                max_steps: self.max_steps,
                is_complete,
                threat_launches,
                interceptions: Vec::new(),
                impacts: Vec::new(),
                defender_snapshots: copy_defenders(&self.defenders),
            };
            proof {
                lemma_step_interceptions_account(
                    d0,
                    attackers,
                    step as int,
                    pkos@,
                    self.draws.drawn(),
                    start.len() as int,
                    self.defenders@,
                    rec,
                );
            }
            return Some(rec);
        }
        sort_by_pkd(&mut self.defenders);
        let ghost sorted = self.defenders@;
        proof {
            lemma_sort_by_pkd(d0);
            lemma_sorted_within_aim(d0, sorted, self.config.defenders@, attackers, step as nat);
        }
        let before_int = copy_defenders(&self.defenders);
        let outcome = interception_phase(&mut self.defenders, &threat_pool, &mut self.draws);
        let ghost after_int = self.defenders@;
        let ghost mid = self.draws.drawn();
        proof {
            lemma_interception_laws(sorted, threat_pool@, mid, start.len() as int);
            lemma_total_nonneg(outcome.kills@);
            lemma_impact_room(
                sorted,
                after_int,
                outcome.surviving@,
                self.config.defenders@,
                attackers,
                step as nat,
                pkos@,
            );
        }
        let interceptions = interception_events(&before_int, &self.defenders, &outcome.kills);
        let before_imp = copy_defenders(&self.defenders);
        terminal_impact_phase(&mut self.defenders, &outcome.surviving, &mut self.draws);
        proof {
            lemma_impact_laws(after_int, outcome.surviving@, self.draws.drawn(), mid.len() as int);
            lemma_extends_trans(self.draws.drawn(), mid, start);
            assert(spec_interception(sorted, threat_pool@, self.draws.drawn(), start.len() as int).defenders
                == after_int);
            lemma_step_within_aim(
                sorted,
                after_int,
                self.defenders@,
                outcome.surviving@,
                self.config.defenders@,
                attackers,
                step as nat,
                pkos@,
            );
            assert forall|i: int| 0 <= i < self.defenders@.len() implies aimed_count(
                outcome.surviving@,
                (#[trigger] self.defenders@[i]).name@,
            ) <= u32::MAX by {
                assert(self.defenders@[i].name == after_int[i].name);
            }
            lemma_step_wears(d0, sorted, after_int, self.defenders@);
            lemma_sort_names(d0);
            assert forall|i: int| 0 <= i < sorted.len() implies #[trigger] self.defenders@[i].name@
                == sorted[i].name@ by {
                assert(only_magazine_spent(after_int[i], sorted[i]));
            }
            assert(names_of(self.defenders@) =~= names_of(sorted));
            lemma_worn_within_config(d0, self.defenders@, self.config.defenders@);
        }
        let impacts = impact_events(&before_imp, &self.defenders, &outcome.surviving);
        let rec = StepRecord {
            step,
            max_steps: self.max_steps,
            is_complete,
            threat_launches,
            interceptions,
            impacts,
            defender_snapshots: copy_defenders(&self.defenders),
        };
        proof {
            lemma_step_interceptions_account(
                d0,
                attackers,
                step as int,
                pkos@,
                self.draws.drawn(),
                start.len() as int,
                self.defenders@,
                rec,
            );
        }
        Some(rec)
    }

    /// A simulation never runs past its last step, and it is finished
    /// exactly when it has taken every step of its longest salvo schedule.
    pub proof fn lemma_finished_after_all_steps(&self)
        requires
            self.wf(),
        ensures
            self.next_step() <= spec_max_steps(self.scenario().attackers@),
            self.is_finished() == (self.next_step() == spec_max_steps(self.scenario().attackers@)),
    {
    }

    /// The defenders of a simulation stay within the configured ones: one per
    /// configured defender, each bearing a configured name with that
    /// defender's engagement capacity and doctrine and no more staying power
    /// or interceptors, every configured name borne by one of them, and their
    /// names a permutation of the configured names.
    pub proof fn lemma_defenders_within_config(&self)
        requires
            self.wf(),
        ensures
            within_config(self.current_defenders(), self.scenario().defenders@),
            names_of(self.current_defenders()).to_multiset() == config_names(
                self.scenario().defenders@,
            ).to_multiset(),
    {
    }

    /// Whether `after` and `record` are what `advance` makes of `before`:
    /// nothing once finished; otherwise the record of step `next_step`,
    /// complete exactly when the simulation is now finished, and one more
    /// step taken.
    pub open spec fn advanced(
        before: StepwiseSimulation,
        after: StepwiseSimulation,
        record: Option<StepRecord>,
    ) -> bool {
        &&& after.wf()
        &&& after.scenario() == before.scenario()
        &&& if before.is_finished() {
            &&& record is None
            &&& after.next_step() == before.next_step()
            &&& after.is_finished()
        } else {
            &&& record is Some
            &&& record->Some_0.step == before.next_step()
            &&& after.next_step() == before.next_step() + 1
            &&& record->Some_0.is_complete == after.is_finished()
        }
    }

    /// After `n` advances of a fresh simulation, states `0..=n` have taken
    /// `min(i, m)` steps of the scenario's `m`.
    proof fn lemma_prefix_steps(
        states: Seq<StepwiseSimulation>,
        records: Seq<Option<StepRecord>>,
        n: int,
    )
        requires
            states.len() == records.len() + 1,
            0 <= n < states.len(),
            states[0].wf(),
            states[0].next_step() == 0,
            forall|i: int|
                0 <= i < records.len() ==> Self::advanced(states[i], states[i + 1], #[trigger] records[i]),
        ensures
            states[n].wf(),
            states[n].scenario() == states[0].scenario(),
            states[n].next_step() == min_nat(n as nat, spec_max_steps(states[0].scenario().attackers@)),
        decreases n,
    {
        if n > 0 {
            Self::lemma_prefix_steps(states, records, n - 1);
            assert(Self::advanced(states[n - 1], states[n], records[n - 1]));
        }
    }

    /// Stepping through a scenario whose longest salvo schedule has `m`
    /// steps: the first `m` advances of a fresh simulation return the records
    /// of steps `0..m` in order, only the last of them complete, and every
    /// later advance returns nothing; after `n` advances the simulation has
    /// taken `min(n, m)` steps.
    pub proof fn lemma_advance_sequence(
        states: Seq<StepwiseSimulation>,
        records: Seq<Option<StepRecord>>,
    )
        requires
            states.len() == records.len() + 1,
            states[0].wf(),
            states[0].next_step() == 0,
            forall|i: int|
                0 <= i < records.len() ==> Self::advanced(states[i], states[i + 1], #[trigger] records[i]),
        ensures
            forall|i: int|
                0 <= i < states.len() ==> (#[trigger] states[i]).next_step() == min_nat(
                    i as nat,
                    spec_max_steps(states[0].scenario().attackers@),
                ),
            forall|i: int|
                0 <= i < records.len() ==> ((#[trigger] records[i]) is Some <==> i < spec_max_steps(
                    states[0].scenario().attackers@,
                )),
            forall|i: int|
                0 <= i < records.len() && i < spec_max_steps(states[0].scenario().attackers@) ==> {
                    &&& (#[trigger] records[i])->Some_0.step == i
                    &&& records[i]->Some_0.is_complete == (i == spec_max_steps(
                        states[0].scenario().attackers@,
                    ) - 1)
                },
    {
        let m = spec_max_steps(states[0].scenario().attackers@);
        assert forall|i: int| 0 <= i < states.len() implies (#[trigger] states[i]).next_step()
            == min_nat(i as nat, m) by {
            Self::lemma_prefix_steps(states, records, i);
        }
        assert forall|i: int| 0 <= i < records.len() implies ((#[trigger] records[i]) is Some <==> i
            < m) && (i < m ==> {
            &&& records[i]->Some_0.step == i
            &&& records[i]->Some_0.is_complete == (i == m - 1)
        }) by {
            Self::lemma_prefix_steps(states, records, i);
            Self::lemma_prefix_steps(states, records, i + 1);
            assert(Self::advanced(states[i], states[i + 1], records[i]));
        }
    }

    /// Whether the simulation has no more steps.
    pub fn finished(&self) -> (b: bool)
        ensures
            b == self.is_finished(),
    {
        self.finished
    }

    /// Current step index (0-based).
    pub fn current_step(&self) -> (s: usize)
        ensures
            s == self.next_step(),
    {
        self.step
    }

    /// Total number of steps.
    pub fn max_steps(&self) -> (n: usize)
        requires
            self.wf(),
        ensures
            n == spec_max_steps(self.scenario().attackers@),
    {
        self.max_steps
    }

    /// Scenario name for display.
    pub fn scenario_name(&self) -> (name: &str)
        ensures
            name@ == self.scenario().scenario.name@,
    {
        self.config.scenario.name.as_str()
    }

    /// Current defender state snapshot.
    pub fn defenders(&self) -> (d: &[RunDefender])
        ensures
            d@ == self.current_defenders(),
    {
        self.defenders.as_slice()
    }
}

} // verus!
