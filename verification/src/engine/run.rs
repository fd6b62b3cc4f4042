//! One run of a scenario: time steps of launch, interception and impact.

use vstd::prelude::*;

use crate::draws::DrawSource;
use crate::engine::impact::{
    lemma_hits_per_target,
    first_named,
    lemma_first_named,
    lemma_first_named_found,
    lemma_impact_laws,
    only_damage_taken,
    spec_impact,
    terminal_impact_phase,
};
use crate::engine::stats::{run_covers, run_data};
use crate::engine::interception::{
    aimed_after,
    lemma_aimed_after_count,
    extends,
    interception_phase,
    lemma_extends_trans,
    lemma_interception_laws,
    only_magazine_spent,
    only_magazines_spent,
    spec_interception,
};
use crate::engine::ordering::{lemma_sort_by_pkd, sort_by_pkd, spec_sort_by_pkd};
use crate::engine::threats::{
    aimed_missiles,
    schedule_sum,
    schedule_total,
    aimed_count,
    aimed_fired_before,
    aimed_total,
    lemma_aimed_counts,
    determine_max_steps,
    generate_threat_pool,
    spec_max_steps,
    spec_threat_pool,
};
use crate::models::{Attacker, Chance, Defender, IncomingThreat, RunDefender, ScenarioConfig, spec_run_defender};

verus! {

/// A configured defender at the start of a run, with its PkD resolved to `pkd`.
pub open spec fn resolved_defender(d: Defender, pkd: Chance) -> RunDefender {
    RunDefender { pkd, ..spec_run_defender(d) }
}

/// The defenders at the start of a run, defender `i` with PkD `pkds[i]`.
pub open spec fn initial_run(defenders: Seq<Defender>, pkds: Seq<Chance>) -> Seq<RunDefender> {
    Seq::new(defenders.len(), |i: int| resolved_defender(defenders[i], pkds[i]))
}

/// A run starts with each configured defender as configured, untouched, and
/// carrying its own resolved PkD: defender `i` gets `pkds[i]`.
pub proof fn lemma_initial_run(defenders: Seq<Defender>, pkds: Seq<Chance>)
    requires
        pkds.len() == defenders.len(),
    ensures
        initial_run(defenders, pkds).len() == defenders.len(),
        forall|i: int|
            0 <= i < defenders.len() ==> {
                &&& (#[trigger] initial_run(defenders, pkds)[i]).pkd == pkds[i]
                &&& initial_run(defenders, pkds)[i].name == defenders[i].name
                &&& initial_run(defenders, pkds)[i].staying_power == defenders[i].staying_power
                &&& initial_run(defenders, pkds)[i].hits_taken == 0
                &&& initial_run(defenders, pkds)[i].magazine_depth == defenders[i].magazine_depth
                &&& initial_run(defenders, pkds)[i].max_engagement_capacity
                    == defenders[i].max_engagement_capacity
                &&& initial_run(defenders, pkds)[i].doctrine == defenders[i].doctrine
            },
{
}

/// One time step, reading random words from `pos`: if anything is launched,
/// the defenders are sorted by PkD, intercept, and the surviving threats
/// roll for impact.  Returns the defenders and the next position.
pub open spec fn spec_step(
    defenders: Seq<RunDefender>,
    attackers: Seq<Attacker>,
    step: int,
    pkos: Seq<Chance>,
    draws: Seq<u64>,
    pos: int,
) -> (Seq<RunDefender>, int) {
    let pool = spec_threat_pool(attackers, step, pkos);
    if pool.len() == 0 {
        (defenders, pos)
    } else {
        let outcome = spec_interception(spec_sort_by_pkd(defenders), pool, draws, pos);
        (
            spec_impact(outcome.defenders, outcome.surviving, draws, outcome.pos),
            outcome.pos + outcome.surviving.len(),
        )
    }
}

/// The time steps from `step` up to `max_steps`, step `s` using the PKO
/// chances `pkos[s]`.
pub open spec fn steps_from(
    defenders: Seq<RunDefender>,
    attackers: Seq<Attacker>,
    step: int,
    max_steps: int,
    pkos: Seq<Vec<Chance>>,
    draws: Seq<u64>,
    pos: int,
) -> (Seq<RunDefender>, int)
    decreases max_steps - step,
{
    if step < 0 || step >= max_steps {
        (defenders, pos)
    } else {
        let (next, p) = spec_step(defenders, attackers, step, pkos[step]@, draws, pos);
        steps_from(next, attackers, step + 1, max_steps, pkos, draws, p)
    }
}

/// A whole run of a scenario with the given resolved PkDs (per defender)
/// and PKOs (per step, per attacker), reading random words from `start`.
pub open spec fn spec_run(
    config: ScenarioConfig,
    pkds: Seq<Chance>,
    pkos: Seq<Vec<Chance>>,
    draws: Seq<u64>,
    start: int,
) -> (Seq<RunDefender>, int) {
    steps_from(
        initial_run(config.defenders@, pkds),
        config.attackers@,
        0,
        spec_max_steps(config.attackers@) as int,
        pkos,
        draws,
        start,
    )
}

/// Whether `pkos` holds one PKO chance per attacker for each of `steps`
/// steps.
pub open spec fn pkos_shaped(pkos: Seq<Vec<Chance>>, steps: nat, attackers: nat) -> bool {
    &&& pkos.len() == steps
    &&& forall|s: int| 0 <= s < pkos.len() ==> (#[trigger] pkos[s])@.len() == attackers
}

/// Whether a scenario can be simulated with counters that fit a `u32`:
/// each attacker's salvo schedule sums to at most `u32::MAX` missiles, and
/// so do the missiles aimed at each configured defender's name (each of
/// which can score a hit).
pub open spec fn scenario_fits(config: ScenarioConfig) -> bool {
    &&& forall|a: int|
        0 <= a < config.attackers@.len() ==> schedule_total(#[trigger] config.attackers@[a])
            <= u32::MAX
    &&& forall|j: int|
        0 <= j < config.defenders@.len() ==> aimed_total(
            config.attackers@,
            (#[trigger] config.defenders@[j]).name@,
        ) <= u32::MAX
}

/// The defenders of a fitting scenario's run bear configured names, so the
/// missiles aimed at each of them fit in a `u32`.
proof fn lemma_names_fit(run: Seq<RunDefender>, config: ScenarioConfig)
    requires
        scenario_fits(config),
        descends(run, config.defenders@),
    ensures
        forall|i: int|
            0 <= i < run.len() ==> aimed_total(config.attackers@, (#[trigger] run[i]).name@)
                <= u32::MAX,
{
    assert forall|i: int| 0 <= i < run.len() implies aimed_total(
        config.attackers@,
        (#[trigger] run[i]).name@,
    ) <= u32::MAX by {
        assert(configured_with(config.defenders@, run[i].name@, run[i].magazine_depth));
        let j = choose|j: int|
            0 <= j < config.defenders@.len() && (#[trigger] config.defenders@[j]).name@
                == run[i].name@ && run[i].magazine_depth <= config.defenders@[j].magazine_depth;
    }
}

/// Whether some configured defender is named `name` and holds at least
/// `magazine` interceptors.
pub open spec fn configured_with(defenders: Seq<Defender>, name: Seq<char>, magazine: u32) -> bool {
    exists|j: int|
        0 <= j < defenders.len() && (#[trigger] defenders[j]).name@ == name && magazine
            <= defenders[j].magazine_depth
}

/// Whether some defender of a run is named `name`.
pub open spec fn bears_name(run: Seq<RunDefender>, name: Seq<char>) -> bool {
    exists|i: int| 0 <= i < run.len() && (#[trigger] run[i]).name@ == name
}

/// Whether the defenders of a run descend from the configured ones: each
/// bears the name of a configured defender and holds no more interceptors
/// than it, and each configured name is borne by some defender of the run.
pub open spec fn descends(run: Seq<RunDefender>, defenders: Seq<Defender>) -> bool {
    &&& forall|i: int|
        0 <= i < run.len() ==> configured_with(
            defenders,
            (#[trigger] run[i]).name@,
            run[i].magazine_depth,
        )
    &&& forall|j: int| 0 <= j < defenders.len() ==> bears_name(run, (#[trigger] defenders[j]).name@)
}

/// Whether run state `r` still holds the full magazine of a configured
/// defender of its name.
pub open spec fn magazine_untouched(defenders: Seq<Defender>, r: RunDefender) -> bool {
    exists|j: int|
        0 <= j < defenders.len() && (#[trigger] defenders[j]).name@ == r.name@
            && defenders[j].magazine_depth == r.magazine_depth
}

/// Whether every defender of a run has taken at most one hit per missile
/// fired at its name in the steps before `step`, and still holds its full
/// magazine if none was.
pub open spec fn within_aim(
    run: Seq<RunDefender>,
    defenders: Seq<Defender>,
    attackers: Seq<Attacker>,
    step: nat,
) -> bool {
    forall|i: int|
        0 <= i < run.len() ==> {
            &&& (#[trigger] run[i]).hits_taken <= aimed_fired_before(attackers, run[i].name@, step)
            &&& aimed_fired_before(attackers, run[i].name@, step) == 0 ==> magazine_untouched(
                defenders,
                run[i],
            )
        }
}

/// Whether configured defenders that share a name have the same magazine
/// depth.
pub open spec fn magazines_consistent(defenders: Seq<Defender>) -> bool {
    forall|j: int, k: int|
        0 <= j < defenders.len() && 0 <= k < defenders.len() && (#[trigger] defenders[j]).name@
            == (#[trigger] defenders[k]).name@ ==> defenders[j].magazine_depth
            == defenders[k].magazine_depth
}

/// A run that descends from consistently configured defenders covers every
/// configured defender.
pub proof fn lemma_descends_covers(run: Seq<RunDefender>, defenders: Seq<Defender>)
    requires
        descends(run, defenders),
        magazines_consistent(defenders),
    ensures
        run_covers(defenders, run),
{
    assert forall|j: int| 0 <= j < defenders.len() implies {
        &&& first_named(run, (#[trigger] defenders[j]).name@, 0) < run.len()
        &&& run_data(run, defenders[j]).magazine_depth <= defenders[j].magazine_depth
    } by {
        let name = defenders[j].name@;
        assert(bears_name(run, name));
        let i = choose|i: int| 0 <= i < run.len() && (#[trigger] run[i]).name@ == name;
        lemma_first_named_found(run, name, i);
        lemma_first_named(run, name, 0);
        let f = first_named(run, name, 0) as int;
        assert(configured_with(defenders, run[f].name@, run[f].magazine_depth));
        let k = choose|k: int|
            0 <= k < defenders.len() && (#[trigger] defenders[k]).name@ == run[f].name@
                && run[f].magazine_depth <= defenders[k].magazine_depth;
        assert(defenders[k].name@ == defenders[j].name@);
    }
}

/// Sorting keeps a run descending from its configuration.
proof fn lemma_sort_descends(run: Seq<RunDefender>, defenders: Seq<Defender>)
    requires
        descends(run, defenders),
    ensures
        descends(spec_sort_by_pkd(run), defenders),
{
    let sorted = spec_sort_by_pkd(run);
    lemma_sort_by_pkd(run);
    assert forall|i: int| 0 <= i < sorted.len() implies configured_with(
        defenders,
        (#[trigger] sorted[i]).name@,
        sorted[i].magazine_depth,
    ) by {
        vstd::seq_lib::to_multiset_contains(sorted, sorted[i]);
        vstd::seq_lib::to_multiset_contains(run, sorted[i]);
        assert(sorted.contains(sorted[i]));
        let k = choose|k: int| 0 <= k < run.len() && run[k] == sorted[i];
        assert(configured_with(defenders, run[k].name@, run[k].magazine_depth));
    }
    assert forall|j: int| 0 <= j < defenders.len() implies bears_name(
        sorted,
        (#[trigger] defenders[j]).name@,
    ) by {
        let name = defenders[j].name@;
        assert(bears_name(run, name));
        let k = choose|k: int| 0 <= k < run.len() && (#[trigger] run[k]).name@ == name;
        vstd::seq_lib::to_multiset_contains(sorted, run[k]);
        vstd::seq_lib::to_multiset_contains(run, run[k]);
        assert(run.contains(run[k]));
        let i = choose|i: int| 0 <= i < sorted.len() && sorted[i] == run[k];
        assert(sorted[i].name@ == name);
    }
}

/// Spending interceptors and taking damage keep a run descending from its
/// configuration.
proof fn lemma_phases_descend(
    run: Seq<RunDefender>,
    mid: Seq<RunDefender>,
    after: Seq<RunDefender>,
    defenders: Seq<Defender>,
)
    requires
        descends(run, defenders),
        only_magazines_spent(mid, run),
        only_damage_taken(after, mid),
    ensures
        descends(after, defenders),
{
    assert forall|i: int| 0 <= i < after.len() implies configured_with(
        defenders,
        (#[trigger] after[i]).name@,
        after[i].magazine_depth,
    ) by {
        assert(only_magazine_spent(mid[i], run[i]));
        assert(after[i].name == mid[i].name);
        assert(configured_with(defenders, run[i].name@, run[i].magazine_depth));
    }
    assert forall|j: int| 0 <= j < defenders.len() implies bears_name(
        after,
        (#[trigger] defenders[j]).name@,
    ) by {
        let name = defenders[j].name@;
        assert(bears_name(run, name));
        let i = choose|i: int| 0 <= i < run.len() && (#[trigger] run[i]).name@ == name;
        assert(only_magazine_spent(mid[i], run[i]));
        assert(after[i].name == mid[i].name);
    }
}

/// The defenders at the start of a run, defender `i` with PkD `pkds[i]`.
pub fn initialize_run(defenders: &Vec<Defender>, pkds: &Vec<Chance>) -> (run: Vec<RunDefender>)
    requires
        pkds.len() == defenders.len(),
    ensures
        run@ == initial_run(defenders@, pkds@),
        run@.len() == defenders@.len(),
        forall|i: int|
            0 <= i < run@.len() ==> {
                &&& (#[trigger] run@[i]).pkd == pkds@[i]
                &&& run@[i].name == defenders@[i].name
                &&& run@[i].staying_power == defenders@[i].staying_power
                &&& run@[i].hits_taken == 0
                &&& run@[i].magazine_depth == defenders@[i].magazine_depth
                &&& run@[i].max_engagement_capacity == defenders@[i].max_engagement_capacity
                &&& run@[i].doctrine == defenders@[i].doctrine
            },
{
    proof {
        lemma_initial_run(defenders@, pkds@);
    }
    let mut run: Vec<RunDefender> = Vec::new();
    let mut i: usize = 0;
    while i < defenders.len()
        invariant
            0 <= i <= defenders.len(),
            pkds.len() == defenders.len(),
            run@ == initial_run(defenders@.take(i as int), pkds@.take(i as int)),
        decreases defenders.len() - i,
    {
        let mut rd = RunDefender::from(&defenders[i]);
        rd.pkd = pkds[i];
        run.push(rd);
        i = i + 1;
        assert(run@ =~= initial_run(defenders@.take(i as int), pkds@.take(i as int)));
    }
    assert(defenders@.take(defenders.len() as int) =~= defenders@);
    assert(pkds@.take(pkds.len() as int) =~= pkds@);
    run
}

/// One time step of a run.
fn run_step<S: DrawSource>(
    defenders: &mut Vec<RunDefender>,
    attackers: &Vec<Attacker>,
    step: usize,
    pkos: &Vec<Chance>,
    draws: &mut S,
    Ghost(configured): Ghost<Seq<Defender>>,
)
    requires
        descends(old(defenders)@, configured),
        pkos.len() == attackers.len(),
        forall|i: int|
            0 <= i < old(defenders)@.len() ==> aimed_total(
                attackers@,
                (#[trigger] old(defenders)@[i]).name@,
            ) <= u32::MAX,
        within_aim(old(defenders)@, configured, attackers@, step as nat),
    ensures
        within_aim(final(defenders)@, configured, attackers@, (step + 1) as nat),
        extends(final(draws).drawn(), old(draws).drawn()),
        forall|t: Seq<u64>|
            #![trigger spec_step(old(defenders)@, attackers@, step as int, pkos@, t, old(draws).drawn().len() as int)]
            extends(t, final(draws).drawn()) ==> spec_step(
                old(defenders)@,
                attackers@,
                step as int,
                pkos@,
                t,
                old(draws).drawn().len() as int,
            ) == (final(defenders)@, final(draws).drawn().len() as int),
        final(defenders)@.len() == old(defenders)@.len(),
        descends(final(defenders)@, configured),
{
    let ghost start = draws.drawn();
    let ghost d0 = defenders@;
    let pool = generate_threat_pool(attackers, step, pkos);
    if pool.len() == 0 {
        assert(extends(draws.drawn(), draws.drawn()));
        assert forall|i: int| 0 <= i < d0.len() implies {
            &&& (#[trigger] d0[i]).hits_taken <= aimed_fired_before(
                attackers@,
                d0[i].name@,
                (step + 1) as nat,
            )
            &&& aimed_fired_before(attackers@, d0[i].name@, (step + 1) as nat) == 0
                ==> magazine_untouched(configured, d0[i])
        } by {
            lemma_aimed_counts(attackers@, d0[i].name@, step as nat, pkos@);
        }
        return;
    }
    sort_by_pkd(defenders);
    let ghost sorted = defenders@;
    proof {
        lemma_sort_by_pkd(d0);
        assert(within_aim(sorted, configured, attackers@, step as nat)) by {
            assert forall|i: int| 0 <= i < sorted.len() implies {
                &&& (#[trigger] sorted[i]).hits_taken <= aimed_fired_before(
                    attackers@,
                    sorted[i].name@,
                    step as nat,
                )
                &&& aimed_fired_before(attackers@, sorted[i].name@, step as nat) == 0
                    ==> magazine_untouched(configured, sorted[i])
            } by {
                vstd::seq_lib::to_multiset_contains(sorted, sorted[i]);
                vstd::seq_lib::to_multiset_contains(d0, sorted[i]);
                assert(sorted.contains(sorted[i]));
                let j = choose|j: int| 0 <= j < d0.len() && d0[j] == sorted[i];
                assert(d0[j].hits_taken <= aimed_fired_before(attackers@, d0[j].name@, step as nat));
                assert(aimed_total(attackers@, d0[j].name@) <= u32::MAX);
            }
        }
        assert forall|i: int| 0 <= i < sorted.len() implies aimed_total(
            attackers@,
            (#[trigger] sorted[i]).name@,
        ) <= u32::MAX by {
            vstd::seq_lib::to_multiset_contains(sorted, sorted[i]);
            vstd::seq_lib::to_multiset_contains(d0, sorted[i]);
            assert(sorted.contains(sorted[i]));
            let j = choose|j: int| 0 <= j < d0.len() && d0[j] == sorted[i];
            assert(aimed_total(attackers@, d0[j].name@) <= u32::MAX);
        }
    }
    let ghost mid = draws.drawn();
    let outcome = interception_phase(defenders, &pool, draws);
    let ghost after_int = defenders@;
    let ghost mid2 = draws.drawn();
    proof {
        lemma_interception_laws(sorted, pool@, draws.drawn(), mid.len() as int);
        assert forall|i: int| 0 <= i < after_int.len() implies #[trigger] after_int[i].hits_taken
            + aimed_count(outcome.surviving@, after_int[i].name@) <= u32::MAX by {
            let name = sorted[i].name@;
            assert(only_magazine_spent(after_int[i], sorted[i]));
            assert(aimed_total(attackers@, sorted[i].name@) <= u32::MAX);
            lemma_aimed_counts(attackers@, name, step as nat, pkos@);
            lemma_aimed_counts(attackers@, name, (step + 1) as nat, pkos@);
            assert(aimed_count(outcome.surviving@, name) <= aimed_count(pool@, name));
        }
    }
    terminal_impact_phase(defenders, &outcome.surviving, draws);
    proof {
        lemma_sort_descends(d0, configured);
        lemma_impact_laws(after_int, outcome.surviving@, draws.drawn(), mid2.len() as int);
        lemma_phases_descend(sorted, after_int, defenders@, configured);
        lemma_hits_per_target(after_int, outcome.surviving@, draws.drawn(), mid2.len() as int);
        assert forall|i: int| 0 <= i < defenders@.len() implies {
            &&& (#[trigger] defenders@[i]).hits_taken <= aimed_fired_before(
                attackers@,
                defenders@[i].name@,
                (step + 1) as nat,
            )
            &&& aimed_fired_before(attackers@, defenders@[i].name@, (step + 1) as nat) == 0
                ==> magazine_untouched(configured, defenders@[i])
        } by {
            let name = sorted[i].name@;
            lemma_aimed_counts(attackers@, name, step as nat, pkos@);
            lemma_aimed_after_count(pool@, name);
            assert(only_magazine_spent(after_int[i], sorted[i]));
            assert(sorted[i].hits_taken <= aimed_fired_before(attackers@, name, step as nat));
            assert(aimed_count(outcome.surviving@, name) <= aimed_count(pool@, name));
            if aimed_count(pool@, name) == 0 {
                assert(after_int[i] == sorted[i]);
            }
        }
        lemma_extends_trans(draws.drawn(), mid2, start);
        assert forall|t: Seq<u64>|
            #![trigger spec_step(d0, attackers@, step as int, pkos@, t, start.len() as int)]
            extends(t, draws.drawn()) implies spec_step(
                d0,
                attackers@,
                step as int,
                pkos@,
                t,
                start.len() as int,
            ) == (defenders@, draws.drawn().len() as int) by {
            lemma_extends_trans(t, draws.drawn(), mid2);
            assert(spec_interception(sorted, pool@, t, mid.len() as int).defenders == after_int);
            assert(spec_impact(after_int, outcome.surviving@, t, mid2.len() as int) == defenders@);
        }
    }
}

/// One run of a scenario: the defenders start with PkDs `pkds`, and at step
/// `s` attacker `i`'s missiles carry the PKO chance `pkos[s][i]`.  Returns
/// the defenders at the end.
pub fn simulate_run<S: DrawSource>(
    config: &ScenarioConfig,
    pkds: &Vec<Chance>,
    pkos: &Vec<Vec<Chance>>,
    draws: &mut S,
) -> (run: Vec<RunDefender>)
    requires
        pkds.len() == config.defenders.len(),
        pkos_shaped(pkos@, spec_max_steps(config.attackers@), config.attackers.len() as nat),
        scenario_fits(*config),
    ensures
        extends(final(draws).drawn(), old(draws).drawn()),
        spec_run(*config, pkds@, pkos@, final(draws).drawn(), old(draws).drawn().len() as int) == (
            run@,
            final(draws).drawn().len() as int,
        ),
        forall|t: Seq<u64>|
            #![trigger spec_run(*config, pkds@, pkos@, t, old(draws).drawn().len() as int)]
            extends(t, final(draws).drawn()) ==> spec_run(
                *config,
                pkds@,
                pkos@,
                t,
                old(draws).drawn().len() as int,
            ) == (run@, final(draws).drawn().len() as int),
        run@.len() == config.defenders.len(),
        descends(run@, config.defenders@),
        forall|i: int|
            0 <= i < run@.len() ==> {
                &&& (#[trigger] run@[i]).hits_taken <= aimed_total(config.attackers@, run@[i].name@)
                &&& aimed_total(config.attackers@, run@[i].name@) == 0 ==> magazine_untouched(
                    config.defenders@,
                    run@[i],
                )
            },
{
    let ghost start = draws.drawn();
    let mut defenders = initialize_run(&config.defenders, pkds);
    let ghost d0 = defenders@;
    let max_steps = determine_max_steps(&config.attackers);
    proof {
        assert forall|i: int| 0 <= i < defenders@.len() implies configured_with(
            config.defenders@,
            (#[trigger] defenders@[i]).name@,
            defenders@[i].magazine_depth,
        ) by {
            assert(config.defenders@[i].name@ == defenders@[i].name@);
        }
        assert forall|j: int| 0 <= j < config.defenders@.len() implies bears_name(
            defenders@,
            (#[trigger] config.defenders@[j]).name@,
        ) by {
            assert(config.defenders@[j].name@ == defenders@[j].name@);
        }
        assert forall|i: int| 0 <= i < defenders@.len() implies {
            &&& (#[trigger] defenders@[i]).hits_taken <= aimed_fired_before(
                config.attackers@,
                defenders@[i].name@,
                0,
            )
            &&& aimed_fired_before(config.attackers@, defenders@[i].name@, 0) == 0
                ==> magazine_untouched(config.defenders@, defenders@[i])
        } by {
            lemma_aimed_counts(config.attackers@, defenders@[i].name@, 0, Seq::empty());
            assert(config.defenders@[i].name@ == defenders@[i].name@);
        }
    }
    let mut step: usize = 0;
    while step < max_steps
        invariant
            0 <= step <= max_steps,
            max_steps == spec_max_steps(config.attackers@),
            start == old(draws).drawn(),
            d0 == initial_run(config.defenders@, pkds@),
            pkos_shaped(pkos@, spec_max_steps(config.attackers@), config.attackers.len() as nat),
            scenario_fits(*config),
            extends(draws.drawn(), start),
            defenders@.len() == config.defenders.len(),
            descends(defenders@, config.defenders@),
            within_aim(defenders@, config.defenders@, config.attackers@, step as nat),
            forall|t: Seq<u64>|
                #![trigger steps_from(d0, config.attackers@, 0, max_steps as int, pkos@, t, start.len() as int)]
                extends(t, draws.drawn()) ==> steps_from(
                    d0,
                    config.attackers@,
                    0,
                    max_steps as int,
                    pkos@,
                    t,
                    start.len() as int,
                ) == steps_from(
                    defenders@,
                    config.attackers@,
                    step as int,
                    max_steps as int,
                    pkos@,
                    t,
                    draws.drawn().len() as int,
                ),
        decreases max_steps - step,
    {
        let ghost cur = defenders@;
        let ghost before = draws.drawn();
        let step_pkos = &pkos[step];
        proof {
            lemma_names_fit(defenders@, *config);
            assert(step_pkos@.len() == config.attackers@.len());
        }
        run_step(
            &mut defenders,
            &config.attackers,
            step,
            step_pkos,
            draws,
            Ghost(config.defenders@),
        );
        proof {
            lemma_extends_trans(draws.drawn(), before, start);
            assert forall|t: Seq<u64>|
                #![trigger steps_from(d0, config.attackers@, 0, max_steps as int, pkos@, t, start.len() as int)]
                extends(t, draws.drawn()) implies steps_from(
                    d0,
                    config.attackers@,
                    0,
                    max_steps as int,
                    pkos@,
                    t,
                    start.len() as int,
                ) == steps_from(
                    defenders@,
                    config.attackers@,
                    step + 1,
                    max_steps as int,
                    pkos@,
                    t,
                    draws.drawn().len() as int,
                ) by {
                lemma_extends_trans(t, draws.drawn(), before);
                assert(spec_step(cur, config.attackers@, step as int, pkos@[step as int]@, t, before.len() as int)
                    == (defenders@, draws.drawn().len() as int));
            }
        }
        step = step + 1;
    }
    proof {
        assert(extends(draws.drawn(), draws.drawn()));
        assert forall|i: int| 0 <= i < defenders@.len() implies {
            &&& (#[trigger] defenders@[i]).hits_taken <= aimed_total(
                config.attackers@,
                defenders@[i].name@,
            )
            &&& aimed_total(config.attackers@, defenders@[i].name@) == 0 ==> magazine_untouched(
                config.defenders@,
                defenders@[i],
            )
        } by {
            lemma_aimed_counts(config.attackers@, defenders@[i].name@, max_steps as nat, Seq::empty());
        }
    }
    defenders
}

/// Whether a scenario's counters fit in a `u32` (see `scenario_fits`).
pub fn fits_scenario(config: &ScenarioConfig) -> (b: bool)
    ensures
        b == scenario_fits(*config),
{
    let mut a: usize = 0;
    while a < config.attackers.len()
        invariant
            0 <= a <= config.attackers.len(),
            forall|k: int| 0 <= k < a ==> schedule_total(#[trigger] config.attackers@[k]) <= u32::MAX,
        decreases config.attackers.len() - a,
    {
        if schedule_sum(&config.attackers[a]).is_none() {
            return false;
        }
        a = a + 1;
    }
    let mut j: usize = 0;
    while j < config.defenders.len()
        invariant
            0 <= j <= config.defenders.len(),
            forall|k: int|
                0 <= k < config.attackers@.len() ==> schedule_total(#[trigger] config.attackers@[k])
                    <= u32::MAX,
            forall|k: int|
                0 <= k < j ==> aimed_total(config.attackers@, (#[trigger] config.defenders@[k]).name@)
                    <= u32::MAX,
        decreases config.defenders.len() - j,
    {
        if aimed_missiles(&config.attackers, &config.defenders[j].name).is_none() {
            return false;
        }
        j = j + 1;
    }
    true
}

/// Whether configured defenders that share a name have the same magazine
/// depth.
pub fn consistent_magazines(defenders: &Vec<Defender>) -> (b: bool)
    ensures
        b == magazines_consistent(defenders@),
{
    let mut j: usize = 0;
    while j < defenders.len()
        invariant
            0 <= j <= defenders.len(),
            forall|a: int, b: int|
                0 <= a < j && 0 <= b < defenders@.len() && (#[trigger] defenders@[a]).name@
                    == (#[trigger] defenders@[b]).name@ ==> defenders@[a].magazine_depth
                    == defenders@[b].magazine_depth,
        decreases defenders.len() - j,
    {
        let mut k: usize = 0;
        while k < defenders.len()
            invariant
                0 <= j < defenders.len(),
                0 <= k <= defenders.len(),
                forall|a: int, b: int|
                    0 <= a < j && 0 <= b < defenders@.len() && (#[trigger] defenders@[a]).name@
                        == (#[trigger] defenders@[b]).name@ ==> defenders@[a].magazine_depth
                        == defenders@[b].magazine_depth,
                forall|b: int|
                    0 <= b < k && defenders@[j as int].name@ == (#[trigger] defenders@[b]).name@
                        ==> defenders@[j as int].magazine_depth == defenders@[b].magazine_depth,
            decreases defenders.len() - k,
        {
            if defenders[j].name == defenders[k].name && defenders[j].magazine_depth
                != defenders[k].magazine_depth {
                return false;
            }
            k = k + 1;
        }
        j = j + 1;
    }
    true
}

/// Sorting keeps each defender within the missiles aimed at its name, and
/// keeps their names among those whose aimed missiles fit.
pub proof fn lemma_sorted_within_aim(
    d0: Seq<RunDefender>,
    sorted: Seq<RunDefender>,
    configured: Seq<Defender>,
    attackers: Seq<Attacker>,
    step: nat,
)
    requires
        within_aim(d0, configured, attackers, step),
        forall|i: int|
            0 <= i < d0.len() ==> aimed_total(attackers, (#[trigger] d0[i]).name@) <= u32::MAX,
        sorted.to_multiset() == d0.to_multiset(),
        sorted.len() == d0.len(),
    ensures
        within_aim(sorted, configured, attackers, step),
        forall|i: int|
            0 <= i < sorted.len() ==> aimed_total(attackers, (#[trigger] sorted[i]).name@) <= u32::MAX,
{
    assert forall|i: int| 0 <= i < sorted.len() implies {
        &&& (#[trigger] sorted[i]).hits_taken <= aimed_fired_before(attackers, sorted[i].name@, step)
        &&& aimed_fired_before(attackers, sorted[i].name@, step) == 0 ==> magazine_untouched(
            configured,
            sorted[i],
        )
        &&& aimed_total(attackers, sorted[i].name@) <= u32::MAX
    } by {
        vstd::seq_lib::to_multiset_contains(sorted, sorted[i]);
        vstd::seq_lib::to_multiset_contains(d0, sorted[i]);
        assert(sorted.contains(sorted[i]));
        let j = choose|j: int| 0 <= j < d0.len() && d0[j] == sorted[i];
        assert(d0[j].hits_taken <= aimed_fired_before(attackers, d0[j].name@, step));
        assert(aimed_total(attackers, d0[j].name@) <= u32::MAX);
    }
}

/// After interception, each defender's hits plus the surviving threats
/// aimed at it still fit in a `u32`.
pub proof fn lemma_impact_room(
    sorted: Seq<RunDefender>,
    after_int: Seq<RunDefender>,
    surviving: Seq<IncomingThreat>,
    configured: Seq<Defender>,
    attackers: Seq<Attacker>,
    step: nat,
    pkos: Seq<Chance>,
)
    requires
        within_aim(sorted, configured, attackers, step),
        forall|i: int|
            0 <= i < sorted.len() ==> aimed_total(attackers, (#[trigger] sorted[i]).name@) <= u32::MAX,
        only_magazines_spent(after_int, sorted),
        forall|name: Seq<char>|
            #[trigger] aimed_count(surviving, name) <= aimed_count(
                spec_threat_pool(attackers, step as int, pkos),
                name,
            ),
    ensures
        forall|i: int|
            0 <= i < after_int.len() ==> #[trigger] after_int[i].hits_taken + aimed_count(
                surviving,
                after_int[i].name@,
            ) <= u32::MAX,
{
    assert forall|i: int| 0 <= i < after_int.len() implies #[trigger] after_int[i].hits_taken
        + aimed_count(surviving, after_int[i].name@) <= u32::MAX by {
        let name = sorted[i].name@;
        assert(only_magazine_spent(after_int[i], sorted[i]));
        assert(aimed_total(attackers, sorted[i].name@) <= u32::MAX);
        lemma_aimed_counts(attackers, name, step, pkos);
        lemma_aimed_counts(attackers, name, step + 1, pkos);
        assert(aimed_count(surviving, name) <= aimed_count(
            spec_threat_pool(attackers, step as int, pkos),
            name,
        ));
    }
}

/// Interception and impact keep every defender within the missiles aimed
/// at its name, one step on.
pub proof fn lemma_step_within_aim(
    sorted: Seq<RunDefender>,
    after_int: Seq<RunDefender>,
    after: Seq<RunDefender>,
    surviving: Seq<IncomingThreat>,
    configured: Seq<Defender>,
    attackers: Seq<Attacker>,
    step: nat,
    pkos: Seq<Chance>,
)
    requires
        within_aim(sorted, configured, attackers, step),
        only_magazines_spent(after_int, sorted),
        forall|k: int|
            0 <= k < sorted.len() && !aimed_after(
                spec_threat_pool(attackers, step as int, pkos),
                0,
                sorted[k].name@,
            ) ==> #[trigger] after_int[k] == sorted[k],
        forall|name: Seq<char>|
            #[trigger] aimed_count(surviving, name) <= aimed_count(
                spec_threat_pool(attackers, step as int, pkos),
                name,
            ),
        only_damage_taken(after, after_int),
        forall|i: int|
            0 <= i < after_int.len() ==> #[trigger] after[i].hits_taken <= after_int[i].hits_taken
                + aimed_count(surviving, after_int[i].name@),
    ensures
        within_aim(after, configured, attackers, step + 1),
{
    let pool = spec_threat_pool(attackers, step as int, pkos);
    assert forall|i: int| 0 <= i < after.len() implies {
        &&& (#[trigger] after[i]).hits_taken <= aimed_fired_before(
            attackers,
            after[i].name@,
            step + 1,
        )
        &&& aimed_fired_before(attackers, after[i].name@, step + 1) == 0 ==> magazine_untouched(
            configured,
            after[i],
        )
    } by {
        let name = sorted[i].name@;
        lemma_aimed_counts(attackers, name, step, pkos);
        lemma_aimed_after_count(pool, name);
        assert(only_magazine_spent(after_int[i], sorted[i]));
        assert(sorted[i].hits_taken <= aimed_fired_before(attackers, name, step));
        assert(aimed_count(surviving, name) <= aimed_count(pool, name));
        assert(after[i].hits_taken <= after_int[i].hits_taken + aimed_count(surviving, after_int[i].name@));
        if aimed_count(pool, name) == 0 {
            assert(after_int[i] == sorted[i]);
        }
    }
}

} // verus!
