//! Aggregating runs into per-defender statistics, and the final result.

use vstd::prelude::*;

use crate::engine::impact::{find_named, first_named};
use crate::engine::run::magazines_consistent;
use crate::engine::threats::{
    fired_before,
    lemma_fired_before,
    lemma_fired_monotone,
    schedule_total,
};
use crate::models::{
    Attacker,
    AttackerResult,
    Defender,
    DefenderResult,
    DefenderStats,
    RunDefender,
    ScenarioConfig,
    SimulationResult,
};

verus! {

/// The index of the first configured defender named `name` from `i` on (or
/// the length).  Defenders that share a name share the statistics slot of
/// the first of them.
pub open spec fn first_defender_named(defenders: Seq<Defender>, name: Seq<char>, i: nat) -> nat
    decreases defenders.len() - i,
{
    if i >= defenders.len() {
        defenders.len()
    } else if defenders[i as int].name@ == name {
        i
    } else {
        first_defender_named(defenders, name, i + 1)
    }
}

/// The statistics slot of configured defender `j`.
pub open spec fn stats_slot(defenders: Seq<Defender>, j: int) -> nat {
    first_defender_named(defenders, defenders[j].name@, 0)
}

/// The run state a configured defender's statistics are read from: the
/// first defender of the run with its name.
pub open spec fn run_data(run: Seq<RunDefender>, d: Defender) -> RunDefender {
    run[first_named(run, d.name@, 0) as int]
}

/// Statistics after recording one defender's run outcome: a survival if it
/// ends with staying power left, the hits it took, and the interceptors it
/// spent.
pub open spec fn recorded(s: DefenderStats, d: Defender, r: RunDefender) -> DefenderStats {
    DefenderStats {
        survival_count: (s.survival_count + if r.staying_power > 0 {
            1int
        } else {
            0int
        }) as u32,
        total_hits_taken: (s.total_hits_taken + r.hits_taken) as u32,
        total_interceptors_spent: (s.total_interceptors_spent + (d.magazine_depth
            - r.magazine_depth)) as u32,
    }
}

/// The statistics after recording the run outcome of the first `j`
/// configured defenders.
pub open spec fn aggregate_upto(
    stats: Seq<DefenderStats>,
    defenders: Seq<Defender>,
    run: Seq<RunDefender>,
    j: int,
) -> Seq<DefenderStats>
    decreases j,
{
    if j <= 0 {
        stats
    } else {
        let before = aggregate_upto(stats, defenders, run, j - 1);
        let slot = stats_slot(defenders, j - 1) as int;
        before.update(slot, recorded(before[slot], defenders[j - 1], run_data(run, defenders[j - 1])))
    }
}

/// The statistics after recording one run.
pub open spec fn spec_aggregate(
    stats: Seq<DefenderStats>,
    defenders: Seq<Defender>,
    run: Seq<RunDefender>,
) -> Seq<DefenderStats> {
    aggregate_upto(stats, defenders, run, defenders.len() as int)
}

/// Whether every configured defender has a run state to read: some
/// defender of the run bears its name, and the first such has spent from
/// its magazine, never added to it.
pub open spec fn run_covers(defenders: Seq<Defender>, run: Seq<RunDefender>) -> bool {
    forall|j: int|
        0 <= j < defenders.len() ==> {
            &&& first_named(run, (#[trigger] defenders[j]).name@, 0) < run.len()
            &&& run_data(run, defenders[j]).magazine_depth <= defenders[j].magazine_depth
        }
}

/// How many of the first `j` configured defenders record into slot `k`.
pub open spec fn slot_uses(defenders: Seq<Defender>, k: int, j: int) -> nat
    decreases j,
{
    if j <= 0 {
        0
    } else {
        slot_uses(defenders, k, j - 1) + if stats_slot(defenders, j - 1) == k {
            1nat
        } else {
            0nat
        }
    }
}

/// The survival recording configured defender `d`'s outcome adds.
pub open spec fn survival_added(run: Seq<RunDefender>, d: Defender) -> int {
    if run_data(run, d).staying_power > 0 {
        1
    } else {
        0
    }
}

/// The hits recording configured defender `d`'s outcome adds.
pub open spec fn hits_added(run: Seq<RunDefender>, d: Defender) -> int {
    run_data(run, d).hits_taken as int
}

/// The interceptors recording configured defender `d`'s outcome adds.
pub open spec fn spent_added(run: Seq<RunDefender>, d: Defender) -> int {
    d.magazine_depth - run_data(run, d).magazine_depth
}

/// Whether the statistics have room for one run's outcome: each slot can
/// take what every configured defender recording into it adds.
pub open spec fn stats_have_room(
    stats: Seq<DefenderStats>,
    defenders: Seq<Defender>,
    run: Seq<RunDefender>,
) -> bool {
    forall|k: int|
        0 <= k < stats.len() ==> {
            &&& (#[trigger] stats[k]).survival_count + slot_uses(defenders, k, defenders.len() as int)
                * survival_added(run, defenders[k]) <= u32::MAX
            &&& stats[k].total_hits_taken + slot_uses(defenders, k, defenders.len() as int)
                * hits_added(run, defenders[k]) <= u32::MAX
            &&& stats[k].total_interceptors_spent + slot_uses(
                defenders,
                k,
                defenders.len() as int,
            ) * spent_added(run, defenders[k]) <= u32::MAX
        }
}

/// Slot uses only grow as more defenders are counted.
pub proof fn lemma_slot_uses_monotone(defenders: Seq<Defender>, k: int, j: int, m: int)
    requires
        j <= m,
    ensures
        slot_uses(defenders, k, j) <= slot_uses(defenders, k, m),
    decreases m - j,
{
    if j < m {
        lemma_slot_uses_monotone(defenders, k, j, m - 1);
    }
}

/// The index of the first configured defender named `name`.
pub(crate) fn find_defender_named(defenders: &Vec<Defender>, name: &String) -> (k: usize)
    ensures
        k == first_defender_named(defenders@, name@, 0),
{
    let mut k: usize = 0;
    while k < defenders.len()
        invariant
            0 <= k <= defenders.len(),
            first_defender_named(defenders@, name@, 0) == first_defender_named(
                defenders@,
                name@,
                k as nat,
            ),
        decreases defenders.len() - k,
    {
        if defenders[k].name == *name {
            return k;
        }
        k = k + 1;
    }
    k
}

/// A configured defender's slot is itself or an earlier defender of the
/// same name.
pub proof fn lemma_first_defender_named(defenders: Seq<Defender>, name: Seq<char>, i: nat, j: int)
    requires
        i <= j < defenders.len(),
        defenders[j].name@ == name,
    ensures
        first_defender_named(defenders, name, i) <= j,
        defenders[first_defender_named(defenders, name, i) as int].name@ == name,
    decreases j - i,
{
    if defenders[i as int].name@ != name {
        lemma_first_defender_named(defenders, name, i + 1, j);
    }
}

/// Accumulates one run's outcome into the statistics: for each configured
/// defender, in order, the first defender of the run with its name counts a
/// survival if it has staying power left, adds its hits taken, and adds the
/// interceptors it spent to the slot of the first configured defender with
/// that name.  Each slot thus gains, per configured defender recording into
/// it, what that name's outcome adds.
pub fn aggregate_run(
    config_defenders: &Vec<Defender>,
    run_defenders: &Vec<RunDefender>,
    stats: &mut Vec<DefenderStats>,
)
    requires
        old(stats)@.len() == config_defenders@.len(),
        run_covers(config_defenders@, run_defenders@),
        magazines_consistent(config_defenders@),
        stats_have_room(old(stats)@, config_defenders@, run_defenders@),
    ensures
        final(stats)@ == spec_aggregate(old(stats)@, config_defenders@, run_defenders@),
        final(stats)@.len() == old(stats)@.len(),
        forall|k: int|
            0 <= k < final(stats)@.len() ==> {
                &&& (#[trigger] final(stats)@[k]).survival_count == old(stats)@[k].survival_count
                    + slot_uses(config_defenders@, k, config_defenders@.len() as int)
                    * survival_added(run_defenders@, config_defenders@[k])
                &&& final(stats)@[k].total_hits_taken == old(stats)@[k].total_hits_taken
                    + slot_uses(config_defenders@, k, config_defenders@.len() as int) * hits_added(
                    run_defenders@,
                    config_defenders@[k],
                )
                &&& final(stats)@[k].total_interceptors_spent == old(
                    stats,
                )@[k].total_interceptors_spent + slot_uses(
                    config_defenders@,
                    k,
                    config_defenders@.len() as int,
                ) * spent_added(run_defenders@, config_defenders@[k])
            },
{
    let ghost s0 = stats@;
    let ghost defs = config_defenders@;
    let ghost run = run_defenders@;
    let ghost n = config_defenders@.len() as int;
    let mut j: usize = 0;
    while j < config_defenders.len()
        invariant
            0 <= j <= config_defenders.len(),
            n == config_defenders@.len(),
            defs == config_defenders@,
            run == run_defenders@,
            stats@.len() == s0.len(),
            s0.len() == n,
            run_covers(defs, run),
            magazines_consistent(defs),
            stats_have_room(s0, defs, run),
            stats@ == aggregate_upto(s0, defs, run, j as int),
            forall|k: int|
                0 <= k < stats@.len() ==> {
                    &&& (#[trigger] stats@[k]).survival_count == s0[k].survival_count + slot_uses(
                        defs,
                        k,
                        j as int,
                    ) * survival_added(run, defs[k])
                    &&& stats@[k].total_hits_taken == s0[k].total_hits_taken + slot_uses(
                        defs,
                        k,
                        j as int,
                    ) * hits_added(run, defs[k])
                    &&& stats@[k].total_interceptors_spent == s0[k].total_interceptors_spent
                        + slot_uses(defs, k, j as int) * spent_added(run, defs[k])
                },
        decreases config_defenders.len() - j,
    {
        let def = &config_defenders[j];
        let r = find_named(run_defenders, &def.name);
        let slot = find_defender_named(config_defenders, &def.name);
        let ghost sl = slot as int;
        let ghost u = slot_uses(defs, sl, j as int);
        let ghost un = slot_uses(defs, sl, n);
        let ghost sa = survival_added(run, defs[sl]);
        let ghost ha = hits_added(run, defs[sl]);
        let ghost pa = spent_added(run, defs[sl]);
        proof {
            lemma_first_defender_named(defs, def.name@, 0, j as int);
            assert(defs[sl].name@ == defs[j as int].name@);
            assert(run_data(run, defs[sl]) == run_data(run, defs[j as int]));
            assert(defs[sl].magazine_depth == defs[j as int].magazine_depth);
            assert(slot_uses(defs, sl, j + 1) == u + 1);
            lemma_slot_uses_monotone(defs, sl, j + 1, n);
            assert(sa >= 0 && ha >= 0 && pa >= 0);
            assert((u + 1) * sa == u * sa + sa) by (nonlinear_arith);
            assert((u + 1) * ha == u * ha + ha) by (nonlinear_arith);
            assert((u + 1) * pa == u * pa + pa) by (nonlinear_arith);
            assert((u + 1) * sa <= un * sa) by (nonlinear_arith)
                requires
                    u + 1 <= un,
                    sa >= 0,
            ;
            assert((u + 1) * ha <= un * ha) by (nonlinear_arith)
                requires
                    u + 1 <= un,
                    ha >= 0,
            ;
            assert((u + 1) * pa <= un * pa) by (nonlinear_arith)
                requires
                    u + 1 <= un,
                    pa >= 0,
            ;
            assert(s0[sl].survival_count + un * sa <= u32::MAX);
        }
        let run_data = &run_defenders[r];
        let survived: u32 = if run_data.staying_power > 0 {
            1
        } else {
            0
        };
        let entry = DefenderStats {
            survival_count: stats[slot].survival_count + survived,
            total_hits_taken: stats[slot].total_hits_taken + run_data.hits_taken,
            total_interceptors_spent: stats[slot].total_interceptors_spent + (def.magazine_depth
                - run_data.magazine_depth),
        };
        stats.set(slot, entry);
        proof {
            assert forall|k: int| 0 <= k < stats@.len() && k != sl implies slot_uses(
                defs,
                k,
                j + 1,
            ) == slot_uses(defs, k, j as int) by {}
        }
        j = j + 1;
    }
}

/// A defender's summary: its configuration and its slot's statistics.
pub open spec fn defender_result(d: Defender, s: DefenderStats) -> DefenderResult {
    DefenderResult {
        name: d.name,
        staying_power: d.staying_power,
        magazine_depth: d.magazine_depth,
        survival_count: s.survival_count,
        total_hits_taken: s.total_hits_taken,
        total_interceptors_fired: s.total_interceptors_spent,
    }
}

/// An attacker's summary: its name, target, total missiles and PKO label.
pub open spec fn attacker_result(a: Attacker) -> AttackerResult {
    AttackerResult {
        name: a.name,
        target_name: a.target_name,
        total_missiles: schedule_total(a) as u32,
        pko_label: a.pko_label,
    }
}

/// Whether `result` summarises `config` over `iterations` runs with the
/// statistics `stats`.
pub open spec fn result_matches(
    result: SimulationResult,
    config: ScenarioConfig,
    iterations: u32,
    stats: Seq<DefenderStats>,
) -> bool {
    &&& result.scenario_name == config.scenario.name
    &&& result.iterations == iterations
    &&& result.defenders@ == Seq::new(
        config.defenders@.len(),
        |j: int| defender_result(config.defenders@[j], stats[stats_slot(config.defenders@, j) as int]),
    )
    &&& result.attackers@ == config.attackers@.map_values(|a: Attacker| attacker_result(a))
}

/// The sum of an attacker's salvo schedule.
pub fn total_missiles(a: &Attacker) -> (n: u32)
    requires
        schedule_total(*a) <= u32::MAX,
    ensures
        n == schedule_total(*a),
{
    let mut sum: u32 = 0;
    let mut t: usize = 0;
    proof {
        lemma_fired_before(*a, 0);
    }
    while t < a.salvo_schedule.len()
        invariant
            0 <= t <= a.salvo_schedule.len(),
            schedule_total(*a) <= u32::MAX,
            sum == fired_before(*a, t as nat),
        decreases a.salvo_schedule.len() - t,
    {
        proof {
            lemma_fired_monotone(*a, (t + 1) as nat, a.salvo_schedule@.len());
        }
        sum = sum + a.salvo_schedule[t];
        t = t + 1;
    }
    sum
}

/// Converts aggregated statistics into the simulation result: per
/// configured defender its configuration and its slot's counts, per
/// attacker its total missiles and PKO label.
pub fn build_result(config: &ScenarioConfig, iterations: u32, stats: &Vec<DefenderStats>) -> (result:
    SimulationResult)
    requires
        stats@.len() == config.defenders@.len(),
        forall|k: int|
            0 <= k < config.attackers@.len() ==> schedule_total(#[trigger] config.attackers@[k])
                <= u32::MAX,
    ensures
        result_matches(result, *config, iterations, stats@),
{
    let mut defenders: Vec<DefenderResult> = Vec::new();
    let mut j: usize = 0;
    while j < config.defenders.len()
        invariant
            0 <= j <= config.defenders.len(),
            stats@.len() == config.defenders@.len(),
            defenders@ == Seq::new(
                j as nat,
                |i: int|
                    defender_result(
                        config.defenders@[i],
                        stats@[stats_slot(config.defenders@, i) as int],
                    ),
            ),
        decreases config.defenders.len() - j,
    {
        let def = &config.defenders[j];
        let slot = find_defender_named(&config.defenders, &def.name);
        proof {
            lemma_first_defender_named(config.defenders@, def.name@, 0, j as int);
        }
        let s = &stats[slot];
        defenders.push(
            DefenderResult {
                name: def.name.clone(),
                staying_power: def.staying_power,
                magazine_depth: def.magazine_depth,
                survival_count: s.survival_count,
                total_hits_taken: s.total_hits_taken,
                total_interceptors_fired: s.total_interceptors_spent,
            },
        );
        j = j + 1;
        assert(defenders@ =~= Seq::new(
            j as nat,
            |i: int|
                defender_result(config.defenders@[i], stats@[stats_slot(config.defenders@, i) as int]),
        ));
    }
    let mut attackers: Vec<AttackerResult> = Vec::new();
    let mut k: usize = 0;
    while k < config.attackers.len()
        invariant
            0 <= k <= config.attackers.len(),
            forall|k: int|
                0 <= k < config.attackers@.len() ==> schedule_total(#[trigger] config.attackers@[k])
                    <= u32::MAX,
            attackers@ == config.attackers@.take(k as int).map_values(
                |a: Attacker| attacker_result(a),
            ),
        decreases config.attackers.len() - k,
    {
        let atk = &config.attackers[k];
        let total = total_missiles(atk);
        attackers.push(
            AttackerResult {
                name: atk.name.clone(),
                target_name: atk.target_name.clone(),
                total_missiles: total,
                pko_label: atk.pko_label.clone(),
            },
        );
        k = k + 1;
        assert(attackers@ =~= config.attackers@.take(k as int).map_values(
            |a: Attacker| attacker_result(a),
        ));
    }
    assert(config.attackers@.take(config.attackers.len() as int) =~= config.attackers@);
    SimulationResult {
        scenario_name: config.scenario.name.clone(),
        iterations,
        defenders,
        attackers,
    }
}



} // verus!
