//! The Monte Carlo driver: many independent runs, aggregated.

use vstd::prelude::*;

use crate::draws::DrawSource;
use crate::engine::interception::{extends, lemma_extends_trans};
use crate::engine::impact::{first_named, lemma_first_named};
use crate::engine::run::{
    consistent_magazines,
    lemma_descends_covers,
    fits_scenario,
    magazine_untouched,
    magazines_consistent,
    pkos_shaped,
    scenario_fits,
    simulate_run,
    spec_run,
};
use crate::engine::stats::{
    aggregate_run,
    aggregate_upto,
    build_result,
    find_defender_named,
    lemma_first_defender_named,
    stats_slot,
    first_defender_named,
    hits_added,
    result_matches,
    run_covers,
    run_data,
    slot_uses,
    spec_aggregate,
    spent_added,
    stats_have_room,
    survival_added,
};
use crate::engine::threats::{
    aimed_missiles,
    aimed_total,
    lemma_aimed_counts,
    spec_max_steps,
};
use crate::models::{
    Attacker,
    Chance,
    Defender,
    DefenderStats,
    RunDefender,
    ScenarioConfig,
    SimulationResult,
    spec_iteration_count,
};

verus! {

/// The first `k` iterations of a Monte Carlo simulation, reading random
/// words from `start` of `draws`: iteration `i` is the run with PkDs
/// `pkds[i]` and PKOs `pkos[i]`, reading from where iteration `i - 1`
/// stopped.  Returns the runs' final defenders and the position after them.
pub open spec fn spec_runs(
    config: ScenarioConfig,
    pkds: Seq<Vec<Chance>>,
    pkos: Seq<Vec<Vec<Chance>>>,
    draws: Seq<u64>,
    start: int,
    k: nat,
) -> (Seq<Seq<RunDefender>>, int)
    decreases k,
{
    if k == 0 {
        (Seq::empty(), start)
    } else {
        let (prev, p) = spec_runs(config, pkds, pkos, draws, start, (k - 1) as nat);
        let (run, q) = spec_run(config, pkds[k - 1]@, pkos[k - 1]@, draws, p);
        (prev.push(run), q)
    }
}

/// Statistics with every count zero.
pub open spec fn zero_stats(n: nat) -> Seq<DefenderStats> {
    Seq::new(
        n,
        |i: int| DefenderStats { survival_count: 0, total_hits_taken: 0, total_interceptors_spent: 0 },
    )
}

/// The statistics after recording `runs`, in order.
pub open spec fn aggregate_runs(
    stats: Seq<DefenderStats>,
    defenders: Seq<Defender>,
    runs: Seq<Seq<RunDefender>>,
) -> Seq<DefenderStats>
    decreases runs.len(),
{
    if runs.len() == 0 {
        stats
    } else {
        spec_aggregate(aggregate_runs(stats, defenders, runs.drop_last()), defenders, runs.last())
    }
}

/// The interceptors configured defender `d` can spend in a run: its whole
/// magazine if any missile is aimed at its name, none otherwise (it then
/// never fires).
pub open spec fn spendable(attackers: Seq<Attacker>, d: Defender) -> int {
    if aimed_total(attackers, d.name@) > 0 {
        d.magazine_depth as int
    } else {
        0
    }
}

/// The most one run's outcome for configured defender `d` adds to any
/// count of its statistics slot: one survival, one hit per missile aimed at
/// its name, or what it can spend.
pub open spec fn record_bound(attackers: Seq<Attacker>, d: Defender) -> int {
    1 + aimed_total(attackers, d.name@) + spendable(attackers, d)
}

/// The most one run adds to any count of statistics slot `k`: the record
/// bound once per configured defender recording into it.
pub open spec fn slot_bound(config: ScenarioConfig, k: int) -> int {
    slot_uses(config.defenders@, k, config.defenders@.len() as int) * record_bound(
        config.attackers@,
        config.defenders@[k],
    )
}

/// Whether a Monte Carlo simulation of a scenario keeps every count within
/// a `u32` whatever the random outcomes: the scenario fits, configured
/// defenders of the same name have the same magazine depth, and each
/// statistics slot's counts over all iterations fit.
pub open spec fn monte_carlo_fits(config: ScenarioConfig) -> bool {
    &&& scenario_fits(config)
    &&& magazines_consistent(config.defenders@)
    &&& forall|k: int|
        0 <= k < config.defenders@.len() ==> spec_iteration_count(config.scenario) * #[trigger] slot_bound(
            config,
            k,
        ) <= u32::MAX
}

/// Whether the resolved chances have the right shape for a Monte Carlo
/// simulation: for each iteration, one PkD per defender and, for each step,
/// one PKO per attacker.
pub open spec fn chances_shaped(
    config: ScenarioConfig,
    pkds: Seq<Vec<Chance>>,
    pkos: Seq<Vec<Vec<Chance>>>,
) -> bool {
    &&& pkds.len() == spec_iteration_count(config.scenario)
    &&& pkos.len() == spec_iteration_count(config.scenario)
    &&& forall|k: int|
        0 <= k < pkds.len() ==> (#[trigger] pkds[k])@.len() == config.defenders@.len()
    &&& forall|k: int|
        0 <= k < pkos.len() ==> pkos_shaped(
            (#[trigger] pkos[k])@,
            spec_max_steps(config.attackers@),
            config.attackers@.len(),
        )
}

/// After `runs` runs, each slot `k`'s counts are at most `runs` times what
/// one run can add to them: per configured defender recording into it, one
/// survival, the missiles aimed at its name as hits, and what it can spend.
pub open spec fn counts_within(stats: Seq<DefenderStats>, config: ScenarioConfig, runs: int) -> bool {
    forall|k: int|
        0 <= k < stats.len() ==> {
            let u = slot_uses(config.defenders@, k, config.defenders@.len() as int) as int;
            let d = config.defenders@[k];
            &&& (#[trigger] stats[k]).survival_count <= runs * (u * 1)
            &&& stats[k].total_hits_taken <= runs * (u * aimed_total(config.attackers@, d.name@))
            &&& stats[k].total_interceptors_spent <= runs * (u * spendable(config.attackers@, d))
        }
}

/// Whether what recording each configured defender's outcome of `run` adds
/// is within what one run can add: at most one survival, one hit per missile
/// aimed at its name, and what it can spend.
pub open spec fn additions_bounded(config: ScenarioConfig, run: Seq<RunDefender>) -> bool {
    forall|k: int|
        0 <= k < config.defenders@.len() ==> {
            &&& 0 <= survival_added(run, #[trigger] config.defenders@[k]) <= 1
            &&& 0 <= hits_added(run, config.defenders@[k]) <= aimed_total(
                config.attackers@,
                config.defenders@[k].name@,
            )
            &&& 0 <= spent_added(run, config.defenders@[k]) <= spendable(
                config.attackers@,
                config.defenders@[k],
            )
        }
}

/// A run in which each defender took at most one hit per missile aimed at
/// its name, and kept its full magazine if none was, adds to each slot no
/// more than one run can.
proof fn lemma_additions_bounded(config: ScenarioConfig, run: Seq<RunDefender>)
    requires
        run_covers(config.defenders@, run),
        magazines_consistent(config.defenders@),
        forall|i: int|
            0 <= i < run.len() ==> {
                &&& (#[trigger] run[i]).hits_taken <= aimed_total(config.attackers@, run[i].name@)
                &&& aimed_total(config.attackers@, run[i].name@) == 0 ==> magazine_untouched(
                    config.defenders@,
                    run[i],
                )
            },
    ensures
        additions_bounded(config, run),
{
    let defs = config.defenders@;
    assert forall|k: int| 0 <= k < defs.len() implies {
        &&& 0 <= survival_added(run, #[trigger] defs[k]) <= 1
        &&& 0 <= hits_added(run, defs[k]) <= aimed_total(config.attackers@, defs[k].name@)
        &&& 0 <= spent_added(run, defs[k]) <= spendable(config.attackers@, defs[k])
    } by {
        let name = defs[k].name@;
        lemma_first_named(run, name, 0);
        let f = first_named(run, name, 0) as int;
        assert(first_named(run, defs[k].name@, 0) < run.len());
        assert(run[f].name@ == name);
        lemma_aimed_counts(config.attackers@, name, 0, Seq::empty());
        if aimed_total(config.attackers@, name) == 0 {
            assert(magazine_untouched(defs, run[f]));
            let j = choose|j: int|
                0 <= j < defs.len() && (#[trigger] defs[j]).name@ == run[f].name@
                    && defs[j].magazine_depth == run[f].magazine_depth;
            assert(defs[j].magazine_depth == defs[k].magazine_depth);
        }
    }
}

/// One count's room and growth: a count within `k` runs' worth of `u`
/// additions of at most `b` each, where `it` runs' worth of the larger
/// bound `rb` fits, can take `u` more additions and stays within `k + 1`
/// runs' worth.
proof fn lemma_field_room(count: int, add: int, b: int, rb: int, u: int, k: int, it: int)
    by (nonlinear_arith)
    requires
        0 <= count <= k * (u * b),
        0 <= add <= b <= rb,
        u >= 0,
        0 <= k < it,
        it * (u * rb) <= u32::MAX,
    ensures
        count + u * add <= (k + 1) * (u * b),
        count + u * add <= u32::MAX,
{
    assert(u * add <= u * b);
    assert((k + 1) * (u * b) == k * (u * b) + u * b);
    assert((k + 1) * (u * b) <= it * (u * b));
    assert(it * (u * b) <= it * (u * rb));
}

/// Counts within `k` runs' worth leave room for one more run.
proof fn lemma_room_for_run(stats: Seq<DefenderStats>, config: ScenarioConfig, run: Seq<RunDefender>, k: int)
    requires
        monte_carlo_fits(config),
        stats.len() == config.defenders@.len(),
        counts_within(stats, config, k),
        0 <= k < spec_iteration_count(config.scenario),
        additions_bounded(config, run),
    ensures
        stats_have_room(stats, config.defenders@, run),
{
    let defs = config.defenders@;
    let it = spec_iteration_count(config.scenario) as int;
    assert forall|i: int| 0 <= i < stats.len() implies {
        &&& (#[trigger] stats[i]).survival_count + slot_uses(defs, i, defs.len() as int)
            * survival_added(run, defs[i]) <= u32::MAX
        &&& stats[i].total_hits_taken + slot_uses(defs, i, defs.len() as int) * hits_added(run, defs[i])
            <= u32::MAX
        &&& stats[i].total_interceptors_spent + slot_uses(defs, i, defs.len() as int)
            * spent_added(run, defs[i]) <= u32::MAX
    } by {
        let u = slot_uses(defs, i, defs.len() as int) as int;
        let d = defs[i];
        let rb = record_bound(config.attackers@, d);
        assert(it * slot_bound(config, i) <= u32::MAX);
        lemma_aimed_counts(config.attackers@, d.name@, 0, Seq::empty());
        lemma_field_room(stats[i].survival_count as int, survival_added(run, d), 1, rb, u, k, it);
        lemma_field_room(
            stats[i].total_hits_taken as int,
            hits_added(run, d),
            aimed_total(config.attackers@, d.name@),
            rb,
            u,
            k,
            it,
        );
        lemma_field_room(
            stats[i].total_interceptors_spent as int,
            spent_added(run, d),
            spendable(config.attackers@, d),
            rb,
            u,
            k,
            it,
        );
    }
}

/// One more run's additions keep counts within `k + 1` runs' worth.
proof fn lemma_counts_grow(
    stats: Seq<DefenderStats>,
    after: Seq<DefenderStats>,
    config: ScenarioConfig,
    run: Seq<RunDefender>,
    k: int,
)
    requires
        monte_carlo_fits(config),
        counts_within(stats, config, k),
        0 <= k < spec_iteration_count(config.scenario),
        stats.len() == config.defenders@.len(),
        after.len() == stats.len(),
        additions_bounded(config, run),
        forall|i: int|
            0 <= i < after.len() ==> {
                &&& (#[trigger] after[i]).survival_count == stats[i].survival_count + slot_uses(
                    config.defenders@,
                    i,
                    config.defenders@.len() as int,
                ) * survival_added(run, config.defenders@[i])
                &&& after[i].total_hits_taken == stats[i].total_hits_taken + slot_uses(
                    config.defenders@,
                    i,
                    config.defenders@.len() as int,
                ) * hits_added(run, config.defenders@[i])
                &&& after[i].total_interceptors_spent == stats[i].total_interceptors_spent
                    + slot_uses(config.defenders@, i, config.defenders@.len() as int) * spent_added(
                    run,
                    config.defenders@[i],
                )
            },
    ensures
        counts_within(after, config, k + 1),
{
    let defs = config.defenders@;
    let it = spec_iteration_count(config.scenario) as int;
    assert forall|i: int| 0 <= i < after.len() implies {
        let u = slot_uses(defs, i, defs.len() as int) as int;
        let d = defs[i];
        &&& (#[trigger] after[i]).survival_count <= (k + 1) * (u * 1)
        &&& after[i].total_hits_taken <= (k + 1) * (u * aimed_total(config.attackers@, d.name@))
        &&& after[i].total_interceptors_spent <= (k + 1) * (u * spendable(config.attackers@, d))
    } by {
        let u = slot_uses(defs, i, defs.len() as int) as int;
        let d = defs[i];
        let rb = record_bound(config.attackers@, d);
        assert(it * slot_bound(config, i) <= u32::MAX);
        lemma_aimed_counts(config.attackers@, d.name@, 0, Seq::empty());
        lemma_field_room(stats[i].survival_count as int, survival_added(run, d), 1, rb, u, k, it);
        lemma_field_room(
            stats[i].total_hits_taken as int,
            hits_added(run, d),
            aimed_total(config.attackers@, d.name@),
            rb,
            u,
            k,
            it,
        );
        lemma_field_room(
            stats[i].total_interceptors_spent as int,
            spent_added(run, d),
            spendable(config.attackers@, d),
            rb,
            u,
            k,
            it,
        );
    }
}

/// Zero statistics, one slot per configured defender.
fn zero_stats_for(n: usize) -> (stats: Vec<DefenderStats>)
    ensures
        stats@ == zero_stats(n as nat),
{
    let mut stats: Vec<DefenderStats> = Vec::new();
    while stats.len() < n
        invariant
            stats.len() <= n,
            stats@ == zero_stats(stats.len() as nat),
        decreases n - stats.len(),
    {
        stats.push(DefenderStats::default());
        assert(stats@ =~= zero_stats(stats.len() as nat));
    }
    stats
}

/// One iteration: a run with the given chances, recorded into the
/// statistics.  Returns the run's final defenders.
fn record_iteration<S: DrawSource>(
    config: &ScenarioConfig,
    pkds: &Vec<Chance>,
    pkos: &Vec<Vec<Chance>>,
    draws: &mut S,
    stats: &mut Vec<DefenderStats>,
    Ghost(k): Ghost<int>,
) -> (run: Ghost<Seq<RunDefender>>)
    requires
        pkds@.len() == config.defenders@.len(),
        pkos_shaped(pkos@, spec_max_steps(config.attackers@), config.attackers@.len()),
        monte_carlo_fits(*config),
        0 <= k < spec_iteration_count(config.scenario),
        old(stats)@.len() == config.defenders@.len(),
        counts_within(old(stats)@, *config, k),
    ensures
        extends(final(draws).drawn(), old(draws).drawn()),
        forall|t: Seq<u64>|
            #![trigger spec_run(*config, pkds@, pkos@, t, old(draws).drawn().len() as int)]
            extends(t, final(draws).drawn()) ==> spec_run(
                *config,
                pkds@,
                pkos@,
                t,
                old(draws).drawn().len() as int,
            ) == (run@, final(draws).drawn().len() as int),
        final(stats)@ == spec_aggregate(old(stats)@, config.defenders@, run@),
        final(stats)@.len() == old(stats)@.len(),
        counts_within(final(stats)@, *config, k + 1),
{
    let run = simulate_run(config, pkds, pkos, draws);
    proof {
        lemma_descends_covers(run@, config.defenders@);
        lemma_additions_bounded(*config, run@);
        lemma_room_for_run(stats@, *config, run@, k);
    }
    let ghost before = stats@;
    aggregate_run(&config.defenders, &run, stats);
    proof {
        lemma_counts_grow(before, stats@, *config, run@, k);
    }
    Ghost(run@)
}

/// Run a full Monte Carlo simulation and return structured results.
///
/// Iteration `k` is one run whose defenders start with the resolved PkDs
/// `pkds[k]` and whose attackers' missiles carry the resolved PKOs
/// `pkos[k][step]`; its random rolls read the words of `draws`, each
/// iteration from where the previous one stopped.  Each run's outcome is
/// recorded into the statistics of every configured defender, and the
/// result summarises them.
pub fn run_monte_carlo<S: DrawSource>(
    config: &ScenarioConfig,
    pkds: &Vec<Vec<Chance>>,
    pkos: &Vec<Vec<Vec<Chance>>>,
    draws: &mut S,
) -> (result: SimulationResult)
    requires
        chances_shaped(*config, pkds@, pkos@),
        monte_carlo_fits(*config),
    ensures
        extends(final(draws).drawn(), old(draws).drawn()),
        spec_runs(
            *config,
            pkds@,
            pkos@,
            final(draws).drawn(),
            old(draws).drawn().len() as int,
            spec_iteration_count(config.scenario) as nat,
        ).1 == final(draws).drawn().len(),
        result_matches(
            result,
            *config,
            spec_iteration_count(config.scenario),
            aggregate_runs(
                zero_stats(config.defenders@.len()),
                config.defenders@,
                spec_runs(
                    *config,
                    pkds@,
                    pkos@,
                    final(draws).drawn(),
                    old(draws).drawn().len() as int,
                    spec_iteration_count(config.scenario) as nat,
                ).0,
            ),
        ),
        forall|j: int|
            0 <= j < config.defenders@.len() ==> {
                let u = slot_uses(
                    config.defenders@,
                    stats_slot(config.defenders@, j) as int,
                    config.defenders@.len() as int,
                ) as int;
                let d = config.defenders@[j];
                &&& (#[trigger] result.defenders@[j]).survival_count <= spec_iteration_count(config.scenario) * u
                &&& result.defenders@[j].total_hits_taken <= spec_iteration_count(config.scenario) * (u
                    * aimed_total(config.attackers@, d.name@))
                &&& result.defenders@[j].total_interceptors_fired <= spec_iteration_count(
                    config.scenario,
                ) * (u * spendable(config.attackers@, d))
            },
{
    let iterations = config.scenario.iteration_count();
    let n = config.defenders.len();
    let mut stats = zero_stats_for(n);
    let ghost start = draws.drawn();
    let ghost mut runs: Seq<Seq<RunDefender>> = Seq::empty();
    let mut k: u32 = 0;
    proof {
        assert forall|i: int| 0 <= i < stats@.len() implies {
            &&& (#[trigger] stats@[i]).survival_count <= 0 * slot_bound(*config, i)
            &&& stats@[i].total_hits_taken <= 0 * slot_bound(*config, i)
            &&& stats@[i].total_interceptors_spent <= 0 * slot_bound(*config, i)
        } by {
            assert(0 * slot_bound(*config, i) == 0);
        }
    }
    while k < iterations
        invariant
            0 <= k <= iterations,
            iterations == spec_iteration_count(config.scenario),
            n == config.defenders@.len(),
            chances_shaped(*config, pkds@, pkos@),
            monte_carlo_fits(*config),
            runs.len() == k,
            start == old(draws).drawn(),
            extends(draws.drawn(), start),
            forall|t: Seq<u64>|
                #![trigger spec_runs(*config, pkds@, pkos@, t, start.len() as int, k as nat)]
                extends(t, draws.drawn()) ==> spec_runs(
                    *config,
                    pkds@,
                    pkos@,
                    t,
                    start.len() as int,
                    k as nat,
                ) == (runs, draws.drawn().len() as int),
            stats@ == aggregate_runs(zero_stats(n as nat), config.defenders@, runs),
            stats@.len() == n,
            counts_within(stats@, *config, k as int),
        decreases iterations - k,
    {
        let ghost before = runs;
        let ghost mid = draws.drawn();
        let run = record_iteration(
            config,
            &pkds[k as usize],
            &pkos[k as usize],
            draws,
            &mut stats,
            Ghost(k as int),
        );
        proof {
            runs = runs.push(run@);
            assert(runs.drop_last() =~= before);
            lemma_extends_trans(draws.drawn(), mid, start);
            assert forall|t: Seq<u64>|
                #![trigger spec_runs(*config, pkds@, pkos@, t, start.len() as int, (k + 1) as nat)]
                extends(t, draws.drawn()) implies spec_runs(
                    *config,
                    pkds@,
                    pkos@,
                    t,
                    start.len() as int,
                    (k + 1) as nat,
                ) == (runs, draws.drawn().len() as int) by {
                lemma_extends_trans(t, draws.drawn(), mid);
                assert(spec_runs(*config, pkds@, pkos@, t, start.len() as int, k as nat) == (
                    before,
                    mid.len() as int,
                ));
                assert(spec_run(*config, pkds@[k as int]@, pkos@[k as int]@, t, mid.len() as int) == (
                    run@,
                    draws.drawn().len() as int,
                ));
            }
        }
        k = k + 1;
    }
    let result = build_result(config, iterations, &stats);
    proof {
        assert(extends(draws.drawn(), draws.drawn()));
        let defs = config.defenders@;
        assert forall|j: int| 0 <= j < defs.len() implies {
            let u = slot_uses(defs, stats_slot(defs, j) as int, defs.len() as int) as int;
            let d = defs[j];
            &&& (#[trigger] result.defenders@[j]).survival_count <= iterations * u
            &&& result.defenders@[j].total_hits_taken <= iterations * (u * aimed_total(
                config.attackers@,
                d.name@,
            ))
            &&& result.defenders@[j].total_interceptors_fired <= iterations * (u * spendable(
                config.attackers@,
                d,
            ))
        } by {
            let sl = stats_slot(defs, j) as int;
            lemma_first_defender_named(defs, defs[j].name@, 0, j);
            assert(defs[sl].name@ == defs[j].name@);
            assert(defs[sl].magazine_depth == defs[j].magazine_depth);
            assert(stats@[sl].survival_count <= iterations * (slot_uses(defs, sl, defs.len() as int) * 1));
        }
    }
    result
}

/// How many configured defenders record into slot `k`.
fn uses_of_slot(defenders: &Vec<Defender>, k: usize) -> (u: usize)
    ensures
        u == slot_uses(defenders@, k as int, defenders@.len() as int),
{
    let mut u: usize = 0;
    let mut j: usize = 0;
    while j < defenders.len()
        invariant
            0 <= j <= defenders.len(),
            u == slot_uses(defenders@, k as int, j as int),
            u <= j,
        decreases defenders.len() - j,
    {
        if find_defender_named(defenders, &defenders[j].name) == k {
            u = u + 1;
        }
        j = j + 1;
    }
    u
}

/// Whether a Monte Carlo simulation of the scenario keeps every count
/// within a `u32` whatever the random outcomes (see `monte_carlo_fits`).
pub fn fits_monte_carlo(config: &ScenarioConfig) -> (b: bool)
    ensures
        b == monte_carlo_fits(*config),
{
    if !fits_scenario(config) {
        return false;
    }
    if !consistent_magazines(&config.defenders) {
        return false;
    }
    let iterations = config.scenario.iteration_count();
    let n = config.defenders.len();
    let mut k: usize = 0;
    while k < n
        invariant
            0 <= k <= n,
            n == config.defenders@.len(),
            iterations == spec_iteration_count(config.scenario),
            scenario_fits(*config),
            forall|i: int| 0 <= i < k ==> iterations * #[trigger] slot_bound(*config, i) <= u32::MAX,
        decreases n - k,
    {
        let d = &config.defenders[k];
        let aimed = match aimed_missiles(&config.attackers, &d.name) {
            Some(m) => m,
            None => {
                assert(aimed_total(config.attackers@, config.defenders@[k as int].name@) <= u32::MAX);
                return false;
            },
        };
        let uses = uses_of_slot(&config.defenders, k);
        let ghost rb = record_bound(config.attackers@, config.defenders@[k as int]);
        proof {
            lemma_aimed_counts(config.attackers@, d.name@, 0, Seq::empty());
        }
        let spendable: u64 = if aimed > 0 {
            d.magazine_depth as u64
        } else {
            0
        };
        let per: u128 = 1 + aimed as u128 + spendable as u128;
        assert(per == rb);
        assert(slot_bound(*config, k as int) == uses * rb);
        if iterations > 0 && uses > 4294967295 {
            assert(iterations * (uses * per) > u32::MAX) by (nonlinear_arith)
                requires
                    iterations >= 1,
                    uses > 4294967295,
                    per >= 1,
            ;
            return false;
        }
        proof {
            assert(iterations * (uses * per) <= 4294967295 * (4294967295 * 8589934591)) by (nonlinear_arith)
                requires
                    0 <= iterations <= 4294967295,
                    0 <= uses <= 4294967295 || iterations == 0,
                    1 <= per <= 8589934591,
            ;
        }
        let product: u128 = if iterations == 0 {
            0
        } else {
            assert(uses * per <= 4294967295 * 8589934591) by (nonlinear_arith)
                requires
                    0 <= uses <= 4294967295,
                    1 <= per <= 8589934591,
            ;
            iterations as u128 * (uses as u128 * per)
        };
        assert(product == iterations * slot_bound(*config, k as int)) by (nonlinear_arith)
            requires
                product == if iterations == 0 { 0 } else { iterations * (uses * per) },
                slot_bound(*config, k as int) == uses * per,
        ;
        if product > 4294967295 {
            return false;
        }
        k = k + 1;
    }
    true
}

/// Whether no two configured defenders share a name.
pub open spec fn distinct_names(defenders: Seq<Defender>) -> bool {
    forall|j: int, k: int|
        0 <= j < k < defenders.len() ==> (#[trigger] defenders[j]).name@ != (#[trigger] defenders[k]).name@
}

/// With distinct names, each configured defender is its own statistics slot.
proof fn lemma_own_slot(defenders: Seq<Defender>, j: int, i: nat)
    requires
        distinct_names(defenders),
        i <= j < defenders.len(),
    ensures
        first_defender_named(defenders, defenders[j].name@, i) == j,
    decreases j - i,
{
    if i < j {
        assert(defenders[i as int].name@ != defenders[j].name@);
        lemma_own_slot(defenders, j, i + 1);
    }
}

/// With distinct names, recording the first `j` defenders of one run adds
/// at most one survival to each of their slots and none to the others.
proof fn lemma_upto_survivals(
    stats: Seq<DefenderStats>,
    defenders: Seq<Defender>,
    run: Seq<RunDefender>,
    j: int,
)
    requires
        distinct_names(defenders),
        0 <= j <= defenders.len(),
        stats.len() == defenders.len(),
        forall|i: int| 0 <= i < stats.len() ==> (#[trigger] stats[i]).survival_count < u32::MAX,
    ensures
        aggregate_upto(stats, defenders, run, j).len() == stats.len(),
        forall|i: int|
            0 <= i < stats.len() ==> (#[trigger] aggregate_upto(stats, defenders, run, j)[i]).survival_count
                <= stats[i].survival_count + if i < j {
                1int
            } else {
                0int
            },
    decreases j,
{
    if j > 0 {
        lemma_upto_survivals(stats, defenders, run, j - 1);
        lemma_own_slot(defenders, j - 1, 0);
        let before = aggregate_upto(stats, defenders, run, j - 1);
        assert(before[j - 1].survival_count <= stats[j - 1].survival_count);
        let after = aggregate_upto(stats, defenders, run, j);
        assert forall|i: int| 0 <= i < stats.len() implies (#[trigger] after[i]).survival_count
            <= stats[i].survival_count + if i < j {
            1int
        } else {
            0int
        } by {
            if i != j - 1 {
                assert(after[i] == before[i]);
            }
        }
    }
}

/// A defender survives at most once per iteration: when no two configured
/// defenders share a name, each one's survival count after any number of
/// recorded runs (at most `u32::MAX`) is at most that number, so its
/// survival rate never exceeds 100%.
pub proof fn lemma_survivals_within_iterations(defenders: Seq<Defender>, runs: Seq<Seq<RunDefender>>)
    requires
        distinct_names(defenders),
        runs.len() <= u32::MAX,
    ensures
        aggregate_runs(zero_stats(defenders.len()), defenders, runs).len() == defenders.len(),
        forall|i: int|
            0 <= i < defenders.len() ==> (#[trigger] aggregate_runs(
                zero_stats(defenders.len()),
                defenders,
                runs,
            )[i]).survival_count <= runs.len(),
    decreases runs.len(),
{
    if runs.len() > 0 {
        lemma_survivals_within_iterations(defenders, runs.drop_last());
        let prev = aggregate_runs(zero_stats(defenders.len()), defenders, runs.drop_last());
        lemma_upto_survivals(prev, defenders, runs.last(), defenders.len() as int);
    }
}

/// In a Monte Carlo result of a scenario whose defenders have distinct
/// names, no defender survives more iterations than were run.
pub proof fn lemma_result_survivals(
    result: SimulationResult,
    config: ScenarioConfig,
    runs: Seq<Seq<RunDefender>>,
)
    requires
        distinct_names(config.defenders@),
        runs.len() == spec_iteration_count(config.scenario),
        result_matches(
            result,
            config,
            spec_iteration_count(config.scenario),
            aggregate_runs(zero_stats(config.defenders@.len()), config.defenders@, runs),
        ),
    ensures
        forall|j: int|
            0 <= j < result.defenders@.len() ==> (#[trigger] result.defenders@[j]).survival_count
                <= result.iterations,
{
    lemma_survivals_within_iterations(config.defenders@, runs);
    assert forall|j: int| 0 <= j < result.defenders@.len() implies (#[trigger] result.defenders@[j]).survival_count
        <= result.iterations by {
        lemma_own_slot(config.defenders@, j, 0);
    }
}

/// With distinct names, recording the first `j` defenders of a run adds to
/// each of their slots exactly that defender's outcome, and nothing to the
/// others.
proof fn lemma_upto_records(
    stats: Seq<DefenderStats>,
    defenders: Seq<Defender>,
    run: Seq<RunDefender>,
    j: int,
)
    requires
        distinct_names(defenders),
        0 <= j <= defenders.len(),
        stats.len() == defenders.len(),
        forall|i: int|
            0 <= i < stats.len() ==> {
                &&& (#[trigger] stats[i]).survival_count < u32::MAX
                &&& stats[i].total_hits_taken + run_data(run, defenders[i]).hits_taken <= u32::MAX
                &&& 0 <= defenders[i].magazine_depth - run_data(run, defenders[i]).magazine_depth
                &&& stats[i].total_interceptors_spent + (defenders[i].magazine_depth - run_data(
                    run,
                    defenders[i],
                ).magazine_depth) <= u32::MAX
            },
    ensures
        aggregate_upto(stats, defenders, run, j).len() == stats.len(),
        forall|i: int|
            0 <= i < stats.len() ==> #[trigger] aggregate_upto(stats, defenders, run, j)[i] == if i
                < j {
                DefenderStats {
                    survival_count: (stats[i].survival_count + if run_data(
                        run,
                        defenders[i],
                    ).staying_power > 0 {
                        1int
                    } else {
                        0int
                    }) as u32,
                    total_hits_taken: (stats[i].total_hits_taken + run_data(
                        run,
                        defenders[i],
                    ).hits_taken) as u32,
                    total_interceptors_spent: (stats[i].total_interceptors_spent + (
                    defenders[i].magazine_depth - run_data(run, defenders[i]).magazine_depth))
                        as u32,
                }
            } else {
                stats[i]
            },
    decreases j,
{
    if j > 0 {
        lemma_upto_records(stats, defenders, run, j - 1);
        lemma_own_slot(defenders, j - 1, 0);
    }
}

/// A run's outcome is recorded as it happened: when no two configured
/// defenders share a name, each defender's slot gains one survival exactly
/// when the first defender of the run with its name ends with staying power
/// left, that defender's hits, and the interceptors it spent from its
/// configured magazine.
pub proof fn lemma_aggregate_records_outcome(
    stats: Seq<DefenderStats>,
    defenders: Seq<Defender>,
    run: Seq<RunDefender>,
)
    requires
        distinct_names(defenders),
        stats.len() == defenders.len(),
        forall|i: int|
            0 <= i < stats.len() ==> {
                &&& (#[trigger] stats[i]).survival_count < u32::MAX
                &&& stats[i].total_hits_taken + run_data(run, defenders[i]).hits_taken <= u32::MAX
                &&& 0 <= defenders[i].magazine_depth - run_data(run, defenders[i]).magazine_depth
                &&& stats[i].total_interceptors_spent + (defenders[i].magazine_depth - run_data(
                    run,
                    defenders[i],
                ).magazine_depth) <= u32::MAX
            },
    ensures
        spec_aggregate(stats, defenders, run).len() == stats.len(),
        forall|i: int|
            0 <= i < stats.len() ==> {
                &&& (#[trigger] spec_aggregate(stats, defenders, run)[i]).survival_count == stats[i].survival_count
                    + if run_data(run, defenders[i]).staying_power > 0 {
                    1int
                } else {
                    0int
                }
                &&& spec_aggregate(stats, defenders, run)[i].total_hits_taken == stats[i].total_hits_taken
                    + run_data(run, defenders[i]).hits_taken
                &&& spec_aggregate(stats, defenders, run)[i].total_interceptors_spent
                    == stats[i].total_interceptors_spent + defenders[i].magazine_depth - run_data(
                    run,
                    defenders[i],
                ).magazine_depth
            },
{
    lemma_upto_records(stats, defenders, run, defenders.len() as int);
}

} // verus!
