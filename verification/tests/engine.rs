use salvosim::draws::{DrawSource, RandomDraws, ScriptedDraws};
use salvosim::engine::impact::{find_named, terminal_impact_phase};
use salvosim::engine::interception::interception_phase;
use salvosim::engine::monte_carlo::{fits_monte_carlo, run_monte_carlo};
use salvosim::engine::ordering::sort_by_pkd;
use salvosim::engine::run::{initialize_run, simulate_run};
use salvosim::engine::stats::{aggregate_run, build_result, total_missiles};
use salvosim::engine::stepwise::StepwiseSimulation;
use salvosim::engine::threats::{build_launch_events, determine_max_steps, generate_threat_pool};
use salvosim::models::{
    Attacker, Chance, Defender, DefenderStats, Doctrine, IncomingThreat, RunDefender,
    ScenarioConfig, ScenarioMeta, ROLL_SCALE,
};

/// A word that succeeds against every chance with a positive bound.
const HIT: u64 = 0;
/// A word that fails against every chance short of certainty.
const MISS: u64 = u64::MAX;

fn certain() -> Chance {
    Chance { rank: u64::MAX, bound: ROLL_SCALE }
}

fn never() -> Chance {
    Chance { rank: 0, bound: 0 }
}

fn half() -> Chance {
    Chance { rank: 1000, bound: ROLL_SCALE / 2 }
}

fn run_defender(name: &str, sp: u32, mag: u32, cap: u32, doctrine: Doctrine, pkd: Chance) -> RunDefender {
    RunDefender {
        name: name.to_string(),
        staying_power: sp,
        hits_taken: 0,
        magazine_depth: mag,
        max_engagement_capacity: cap,
        pkd,
        doctrine,
    }
}

fn threat(target: &str, pko: Chance) -> IncomingThreat {
    IncomingThreat { target_name: target.to_string(), pko }
}

fn defender(name: &str, sp: u32, mag: u32, cap: u32, doctrine: Doctrine) -> Defender {
    Defender {
        name: name.to_string(),
        staying_power: sp,
        magazine_depth: mag,
        max_engagement_capacity: cap,
        doctrine,
    }
}

fn attacker(name: &str, target: &str, schedule: Vec<u32>) -> Attacker {
    Attacker {
        name: name.to_string(),
        target_name: target.to_string(),
        salvo_schedule: schedule,
        pko_label: "80%".to_string(),
    }
}

fn config(defenders: Vec<Defender>, attackers: Vec<Attacker>, iterations: Option<u32>) -> ScenarioConfig {
    ScenarioConfig {
        scenario: ScenarioMeta { name: "Test".to_string(), description: None, iterations },
        defenders,
        attackers,
    }
}

#[test]
fn chance_rolls_compare_top_bits() {
    assert!(half().succeeds(0));
    assert!(half().succeeds((ROLL_SCALE / 2 - 1) * 2048 + 2047));
    assert!(!half().succeeds((ROLL_SCALE / 2) * 2048));
    assert!(certain().succeeds(u64::MAX));
    assert!(!never().succeeds(0));
    assert!(Chance::zero().succeeds(2047));
    assert!(!Chance::zero().succeeds(2048));
}

#[test]
fn scripted_draws_follow_script_then_miss() {
    let mut d = ScriptedDraws::new(vec![5, 7]);
    assert_eq!(d.next_draw(), 5);
    assert_eq!(d.next_draw(), 7);
    assert_eq!(d.next_draw(), u64::MAX);
}

#[test]
fn shoot_look_shoot_fires_again_after_a_miss() {
    let mut defs = vec![run_defender("A", 3, 10, 3, Doctrine::ShootLookShoot, half())];
    let pool = vec![threat("A", half()), threat("A", half()), threat("A", half())];
    let mut draws = ScriptedDraws::new(vec![MISS, MISS, HIT, 77]);
    let res = interception_phase(&mut defs, &pool, &mut draws);
    // two misses, then a hit: three interceptors for the first threat,
    // which uses up the capacity; the other two threats get through
    assert_eq!(res.kills, vec![1]);
    assert_eq!(res.surviving.len(), 2);
    assert_eq!(defs[0].magazine_depth, 7);
    assert_eq!(draws.next_draw(), 77);
}

#[test]
fn shoot_look_shoot_misses_with_all_capacity() {
    let mut defs = vec![run_defender("D", 3, 10, 3, Doctrine::ShootLookShoot, never())];
    let pool = vec![threat("D", half())];
    let mut draws = ScriptedDraws::new(vec![MISS, MISS, MISS, MISS]);
    let res = interception_phase(&mut defs, &pool, &mut draws);
    assert_eq!(res.surviving.len(), 1);
    assert_eq!(defs[0].magazine_depth, 7);
}

#[test]
fn shoot_look_shoot_stops_at_a_hit_within_capacity() {
    let mut defs = vec![run_defender("A", 3, 10, 2, Doctrine::ShootLookShoot, half())];
    let pool = vec![threat("A", half()), threat("A", half()), threat("A", half())];
    let mut draws = ScriptedDraws::new(vec![HIT, MISS, HIT]);
    let res = interception_phase(&mut defs, &pool, &mut draws);
    // threat 1 stopped, threat 2 missed, threat 3 finds the capacity spent
    assert_eq!(res.surviving.len(), 2);
    assert_eq!(res.kills, vec![1]);
    assert_eq!(defs[0].magazine_depth, 8);
    // the third word was never drawn
    assert_eq!(draws.next_draw(), HIT);
}

#[test]
fn max_defense_commits_all_capacity_to_one_threat() {
    let mut defs = vec![run_defender("A", 3, 5, 3, Doctrine::MaxDefense, half())];
    let pool = vec![threat("A", half()), threat("A", half())];
    let mut draws = ScriptedDraws::new(vec![MISS, HIT, 42]);
    let res = interception_phase(&mut defs, &pool, &mut draws);
    assert_eq!(res.surviving.len(), 1);
    assert_eq!(res.kills, vec![1]);
    assert_eq!(defs[0].magazine_depth, 2);
    // two rolls were made for the first threat; the next word is untouched
    assert_eq!(draws.next_draw(), 42);
}

#[test]
fn shoot_shoot_look_fires_two_per_threat() {
    let mut defs = vec![run_defender("A", 3, 10, 10, Doctrine::ShootShootLook, half())];
    let pool = vec![threat("A", half()), threat("A", half())];
    let mut draws = ScriptedDraws::new(vec![HIT, MISS, MISS]);
    let res = interception_phase(&mut defs, &pool, &mut draws);
    assert_eq!(res.surviving.len(), 1);
    assert_eq!(res.kills, vec![1]);
    assert_eq!(defs[0].magazine_depth, 6);
}

#[test]
fn threats_are_engaged_only_by_their_target() {
    let mut defs = vec![
        run_defender("A", 3, 10, 10, Doctrine::ShootLookShoot, half()),
        run_defender("B", 3, 10, 10, Doctrine::ShootLookShoot, half()),
    ];
    let pool = vec![threat("B", half())];
    let mut draws = ScriptedDraws::new(vec![MISS, HIT]);
    let res = interception_phase(&mut defs, &pool, &mut draws);
    assert!(res.surviving.is_empty());
    assert_eq!(res.kills, vec![0, 1]);
    assert_eq!(defs[0].magazine_depth, 10);
    assert_eq!(defs[1].magazine_depth, 8);
}

#[test]
fn missed_threat_passes_to_next_defender_of_its_target() {
    let mut defs = vec![
        run_defender("B", 3, 10, 1, Doctrine::MaxDefense, half()),
        run_defender("A", 3, 10, 1, Doctrine::MaxDefense, half()),
        run_defender("B", 3, 10, 1, Doctrine::MaxDefense, half()),
    ];
    let pool = vec![threat("B", half())];
    let mut draws = ScriptedDraws::new(vec![MISS, HIT]);
    let res = interception_phase(&mut defs, &pool, &mut draws);
    assert!(res.surviving.is_empty());
    assert_eq!(res.kills, vec![0, 0, 1]);
    assert_eq!(defs[0].magazine_depth, 9);
    assert_eq!(defs[1].magazine_depth, 10);
    assert_eq!(defs[2].magazine_depth, 9);
}

#[test]
fn destroyed_or_empty_defenders_hold_fire() {
    let mut defs = vec![
        run_defender("A", 0, 10, 10, Doctrine::MaxDefense, certain()),
        run_defender("B", 3, 0, 10, Doctrine::MaxDefense, certain()),
    ];
    let pool = vec![threat("A", half())];
    let mut draws = ScriptedDraws::new(vec![]);
    let res = interception_phase(&mut defs, &pool, &mut draws);
    assert_eq!(res.surviving.len(), 1);
    assert_eq!(defs[0].magazine_depth, 10);
    assert_eq!(defs[1].magazine_depth, 0);
}

#[test]
fn threats_are_conserved() {
    let mut defs = vec![
        run_defender("A", 3, 4, 3, Doctrine::MaxDefense, half()),
        run_defender("B", 3, 2, 1, Doctrine::ShootLookShoot, half()),
    ];
    let pool: Vec<IncomingThreat> = (0..6).map(|_| threat("A", half())).collect();
    let mut draws = ScriptedDraws::new(vec![MISS, HIT, HIT, MISS, HIT, MISS]);
    let res = interception_phase(&mut defs, &pool, &mut draws);
    let killed: u32 = res.kills.iter().sum();
    assert_eq!(killed as usize + res.surviving.len(), pool.len());
    assert!(4 - defs[0].magazine_depth <= 3);
    // no threat is aimed at B, so it never fires
    assert_eq!(defs[1].magazine_depth, 2);
}

#[test]
fn impact_hits_first_defender_of_target_name() {
    let mut defs = vec![
        run_defender("A", 1, 0, 0, Doctrine::ShootLookShoot, half()),
        run_defender("B", 2, 0, 0, Doctrine::ShootLookShoot, half()),
        run_defender("A", 5, 0, 0, Doctrine::ShootLookShoot, half()),
    ];
    let threats = vec![threat("A", half()), threat("A", half()), threat("C", half()), threat("B", half())];
    let mut draws = ScriptedDraws::new(vec![HIT, HIT, HIT, MISS, 99]);
    terminal_impact_phase(&mut defs, &threats, &mut draws);
    assert_eq!(defs[0].hits_taken, 2);
    assert_eq!(defs[0].staying_power, 0);
    assert_eq!(defs[2].hits_taken, 0);
    assert_eq!(defs[1].hits_taken, 0);
    assert_eq!(defs[1].staying_power, 2);
    // one word per threat, even for the target that does not exist
    assert_eq!(draws.next_draw(), 99);
}

#[test]
fn certain_hits_are_one_per_threat_aimed() {
    let mut defs = vec![
        run_defender("A", 3, 0, 0, Doctrine::ShootLookShoot, half()),
        run_defender("B", 3, 0, 0, Doctrine::ShootLookShoot, half()),
    ];
    let threats = vec![threat("A", certain()), threat("B", certain()), threat("A", certain())];
    let mut draws = ScriptedDraws::new(vec![MISS, MISS, MISS]);
    terminal_impact_phase(&mut defs, &threats, &mut draws);
    assert_eq!(defs[0].hits_taken, 2);
    assert_eq!(defs[0].staying_power, 1);
    assert_eq!(defs[1].hits_taken, 1);
    assert_eq!(defs[1].staying_power, 2);
}

#[test]
fn find_named_returns_first_or_length() {
    let defs = vec![
        run_defender("A", 1, 0, 0, Doctrine::ShootLookShoot, half()),
        run_defender("B", 1, 0, 0, Doctrine::ShootLookShoot, half()),
    ];
    assert_eq!(find_named(&defs, &"B".to_string()), 1);
    assert_eq!(find_named(&defs, &"Z".to_string()), 2);
}

#[test]
fn sort_by_pkd_is_descending_and_stable() {
    let c = |r: u64| Chance { rank: r, bound: 0 };
    let mut defs = vec![
        run_defender("low", 1, 0, 0, Doctrine::ShootLookShoot, c(1)),
        run_defender("high1", 1, 0, 0, Doctrine::ShootLookShoot, c(9)),
        run_defender("mid", 1, 0, 0, Doctrine::ShootLookShoot, c(5)),
        run_defender("high2", 1, 0, 0, Doctrine::ShootLookShoot, c(9)),
    ];
    sort_by_pkd(&mut defs);
    let names: Vec<&str> = defs.iter().map(|d| d.name.as_str()).collect();
    assert_eq!(names, vec!["high1", "high2", "mid", "low"]);
}

#[test]
fn threat_pool_and_launch_events() {
    let attackers = vec![
        attacker("X", "A", vec![2, 0, 1]),
        attacker("Y", "B", vec![1]),
        attacker("Z", "A", vec![0, 3]),
    ];
    let pkos = vec![half(), certain(), never()];
    let pool = generate_threat_pool(&attackers, 0, &pkos);
    let targets: Vec<&str> = pool.iter().map(|t| t.target_name.as_str()).collect();
    assert_eq!(targets, vec!["A", "A", "B"]);
    assert_eq!(pool[2].pko, certain());
    let pool1 = generate_threat_pool(&attackers, 1, &pkos);
    assert_eq!(pool1.len(), 3);
    assert_eq!(pool1[0].pko, never());
    assert!(generate_threat_pool(&attackers, 3, &pkos).is_empty());
    let events = build_launch_events(&attackers, 1);
    assert_eq!(events.len(), 1);
    assert_eq!(events[0].attacker_name, "Z");
    assert_eq!(events[0].missiles_fired, 3);
    assert_eq!(events[0].pko_label, "80%");
    let launched: u32 = build_launch_events(&attackers, 0).iter().map(|e| e.missiles_fired).sum();
    assert_eq!(launched as usize, pool.len());
}

#[test]
fn max_steps_is_longest_schedule() {
    let attackers = vec![attacker("X", "A", vec![2, 0, 1]), attacker("Y", "B", vec![1])];
    assert_eq!(determine_max_steps(&attackers), 3);
    assert_eq!(determine_max_steps(&vec![]), 0);
}

#[test]
fn initialize_run_resolves_pkds() {
    let defs = vec![defender("A", 4, 48, 12, Doctrine::ShootLookShoot)];
    let run = initialize_run(&defs, &vec![half()]);
    assert_eq!(run[0].pkd, half());
    assert_eq!(run[0].hits_taken, 0);
    assert_eq!(run[0].magazine_depth, 48);
    let plain = RunDefender::from(&defs[0]);
    assert_eq!(plain.pkd, Chance::zero());
}

#[test]
fn certain_interception_saves_defender() {
    let cfg = config(
        vec![defender("A", 1, 10, 5, Doctrine::ShootLookShoot)],
        vec![attacker("X", "A", vec![3, 2])],
        None,
    );
    let pkos = vec![vec![certain()], vec![certain()]];
    let mut draws = RandomDraws::new();
    let run = simulate_run(&cfg, &vec![certain()], &pkos, &mut draws);
    assert_eq!(run[0].magazine_depth, 5);
    assert_eq!(run[0].hits_taken, 0);
    assert_eq!(run[0].staying_power, 1);
}

#[test]
fn unopposed_certain_strike_destroys_defender() {
    let cfg = config(
        vec![defender("A", 2, 0, 5, Doctrine::MaxDefense)],
        vec![attacker("X", "A", vec![1, 0, 2])],
        None,
    );
    let pkos = vec![vec![certain()], vec![certain()], vec![certain()]];
    let mut draws = RandomDraws::new();
    let run = simulate_run(&cfg, &vec![never()], &pkos, &mut draws);
    assert_eq!(run[0].hits_taken, 3);
    assert_eq!(run[0].staying_power, 0);
}

#[test]
fn aggregate_and_build_result() {
    let defs = vec![
        defender("A", 4, 10, 5, Doctrine::ShootLookShoot),
        defender("B", 3, 8, 2, Doctrine::MaxDefense),
    ];
    let cfg = config(defs, vec![attacker("X", "A", vec![4, 3])], Some(2));
    let mut stats = vec![DefenderStats::default(), DefenderStats::default()];
    let mut run = vec![
        run_defender("B", 0, 6, 2, Doctrine::MaxDefense, half()),
        run_defender("A", 2, 7, 5, Doctrine::ShootLookShoot, half()),
    ];
    run[1].hits_taken = 2;
    run[0].hits_taken = 3;
    aggregate_run(&cfg.defenders, &run, &mut stats);
    aggregate_run(&cfg.defenders, &run, &mut stats);
    assert_eq!(stats[0].survival_count, 2);
    assert_eq!(stats[0].total_hits_taken, 4);
    assert_eq!(stats[0].total_interceptors_spent, 6);
    assert_eq!(stats[1].survival_count, 0);
    assert_eq!(stats[1].total_interceptors_spent, 4);
    let result = build_result(&cfg, 2, &stats);
    assert_eq!(result.scenario_name, "Test");
    assert_eq!(result.iterations, 2);
    assert_eq!(result.defenders[1].name, "B");
    assert_eq!(result.defenders[1].total_hits_taken, 6);
    assert_eq!(result.attackers[0].total_missiles, 7);
    assert_eq!(total_missiles(&cfg.attackers[0]), 7);
}

#[test]
fn monte_carlo_with_certain_outcomes() {
    let cfg = config(
        vec![
            defender("Ship", 2, 3, 2, Doctrine::ShootLookShoot),
            defender("Decoy", 1, 0, 0, Doctrine::MaxDefense),
        ],
        vec![attacker("Sub", "Ship", vec![2, 2]), attacker("Air", "Decoy", vec![1])],
        Some(3),
    );
    let pkds = vec![vec![certain(), never()]; 3];
    let pkos = vec![vec![vec![certain(), certain()], vec![certain(), certain()]]; 3];
    let result = run_monte_carlo(&cfg, &pkds, &pkos, &mut RandomDraws::new());
    assert_eq!(result.iterations, 3);
    // step 0: the ship stops both missiles aimed at it and, its capacity
    // spent, lets the decoy's missile through; step 1: its last interceptor
    // stops one of two missiles, the other hits it.
    let ship = &result.defenders[0];
    assert_eq!(ship.survival_count, 3);
    assert_eq!(ship.total_hits_taken, 3);
    assert_eq!(ship.total_interceptors_fired, 9);
    let decoy = &result.defenders[1];
    assert_eq!(decoy.survival_count, 0);
    assert_eq!(decoy.total_hits_taken, 3);
    assert_eq!(result.attackers[0].total_missiles, 4);
}

#[test]
fn survivals_never_exceed_iterations() {
    let cfg = config(
        vec![
            defender("Cruiser", 2, 10, 3, Doctrine::ShootShootLook),
            defender("Destroyer", 1, 4, 2, Doctrine::MaxDefense),
        ],
        vec![attacker("Sub", "Cruiser", vec![4, 2]), attacker("Air", "Destroyer", vec![0, 3])],
        Some(200),
    );
    let pkds = vec![vec![half(), half()]; 200];
    let pkos = vec![vec![vec![half(), half()], vec![half(), half()]]; 200];
    let result = run_monte_carlo(&cfg, &pkds, &pkos, &mut RandomDraws::new());
    assert_eq!(result.iterations, 200);
    for d in &result.defenders {
        assert!(d.survival_count <= result.iterations);
        assert!(d.total_interceptors_fired <= result.iterations * d.magazine_depth);
    }
    // one hit at most per missile aimed: six at the cruiser, three at the destroyer
    assert!(result.defenders[0].total_hits_taken <= 200 * 6);
    assert!(result.defenders[1].total_hits_taken <= 200 * 3);
}

#[test]
fn stepwise_runs_each_step_once() {
    let cfg = config(
        vec![defender("A", 2, 1, 1, Doctrine::ShootLookShoot)],
        vec![attacker("X", "A", vec![0, 2, 1])],
        None,
    );
    let mut sim = StepwiseSimulation::new(cfg, vec![certain()]);
    assert_eq!(sim.max_steps(), 3);
    assert!(!sim.finished());
    assert_eq!(sim.scenario_name(), "Test");

    let r0 = sim.advance(&vec![certain()]).expect("step 0");
    assert_eq!(r0.step, 0);
    assert!(r0.threat_launches.is_empty());
    assert!(r0.interceptions.is_empty());
    assert!(r0.impacts.is_empty());

    let r1 = sim.advance(&vec![certain()]).expect("step 1");
    assert_eq!(r1.threat_launches[0].missiles_fired, 2);
    assert_eq!(r1.interceptions.len(), 1);
    assert_eq!(r1.interceptions[0].interceptors_fired, 1);
    assert_eq!(r1.interceptions[0].threats_intercepted, 1);
    assert_eq!(r1.interceptions[0].doctrine_label, "Shoot-Look-Shoot");
    assert_eq!(r1.impacts.len(), 1);
    assert_eq!(r1.impacts[0].missiles_leaked, 1);
    assert_eq!(r1.impacts[0].hits_scored, 1);
    assert_eq!(r1.impacts[0].hp_before, 2);
    assert_eq!(r1.impacts[0].hp_after, 1);
    assert!(!r1.impacts[0].destroyed);
    assert!(!r1.is_complete);

    let r2 = sim.advance(&vec![certain()]).expect("step 2");
    assert!(r2.is_complete);
    assert!(r2.interceptions.is_empty());
    assert!(r2.impacts[0].destroyed);
    assert_eq!(r2.defender_snapshots[0].staying_power, 0);
    assert!(sim.finished());
    assert_eq!(sim.current_step(), 3);
    assert!(sim.advance(&vec![certain()]).is_none());
    assert_eq!(sim.defenders()[0].hits_taken, 2);
}

#[test]
fn stepwise_without_attackers_is_finished() {
    let cfg = config(vec![defender("A", 2, 1, 1, Doctrine::MaxDefense)], vec![], None);
    let mut sim = StepwiseSimulation::new(cfg, vec![half()]);
    assert!(sim.finished());
    assert!(sim.advance(&vec![]).is_none());
}

#[test]
fn unattacked_deep_magazine_fits_monte_carlo() {
    let cfg = config(vec![defender("Depot", 1, 4_294_967, 1, Doctrine::MaxDefense)], vec![], Some(1000));
    assert!(fits_monte_carlo(&cfg));
    let pkds = vec![vec![half()]; 1000];
    let pkos: Vec<Vec<Vec<Chance>>> = vec![vec![]; 1000];
    let result = run_monte_carlo(&cfg, &pkds, &pkos, &mut RandomDraws::new());
    assert_eq!(result.defenders[0].survival_count, 1000);
    assert_eq!(result.defenders[0].total_interceptors_fired, 0);
}

#[test]
fn attacked_deep_magazine_does_not_fit() {
    let cfg = config(
        vec![defender("Depot", 1, 4_294_967, 1, Doctrine::MaxDefense)],
        vec![attacker("Air", "Depot", vec![1])],
        Some(1000),
    );
    assert!(!fits_monte_carlo(&cfg));
    // only the defender aimed at counts its magazine
    let cfg = config(
        vec![
            defender("Depot", 1, 4_294_967, 1, Doctrine::MaxDefense),
            defender("Ship", 1, 10, 1, Doctrine::MaxDefense),
        ],
        vec![attacker("Air", "Ship", vec![1])],
        Some(1000),
    );
    assert!(fits_monte_carlo(&cfg));
}

#[test]
fn monte_carlo_iterations_use_their_own_chances_and_words() {
    let cfg = config(
        vec![defender("Ship", 1, 2, 1, Doctrine::ShootLookShoot)],
        vec![attacker("Sub", "Ship", vec![1])],
        Some(2),
    );
    // iteration 0 shoots with certainty, iteration 1 never hits
    let pkds = vec![vec![certain()], vec![never()]];
    let pkos = vec![vec![vec![half()]], vec![vec![half()]]];
    let mut draws = ScriptedDraws::new(vec![MISS, HIT, HIT, 55]);
    let result = run_monte_carlo(&cfg, &pkds, &pkos, &mut draws);
    // iteration 0: the certain shot stops the missile; iteration 1: the shot
    // misses, capacity is spent, and the missile's impact roll hits
    let ship = &result.defenders[0];
    assert_eq!(ship.survival_count, 1);
    assert_eq!(ship.total_hits_taken, 1);
    assert_eq!(ship.total_interceptors_fired, 2);
    assert_eq!(draws.next_draw(), 55);
}

#[test]
fn stepping_keeps_the_configured_names() {
    let cfg = config(
        vec![
            defender("Cruiser", 3, 6, 2, Doctrine::MaxDefense),
            defender("Destroyer", 2, 4, 2, Doctrine::ShootLookShoot),
            defender("Frigate", 1, 2, 1, Doctrine::ShootShootLook),
        ],
        vec![attacker("Sub", "Cruiser", vec![3, 1]), attacker("Air", "Frigate", vec![2, 2])],
        None,
    );
    let mut sim = StepwiseSimulation::new(cfg, vec![half(), certain(), never()]);
    while sim.advance(&vec![half(), half()]).is_some() {
        let mut names: Vec<String> = sim.defenders().iter().map(|d| d.name.clone()).collect();
        names.sort();
        assert_eq!(names, vec!["Cruiser", "Destroyer", "Frigate"]);
        for d in sim.defenders() {
            let (sp, mag, cap) = match d.name.as_str() {
                "Cruiser" => (3, 6, 2),
                "Destroyer" => (2, 4, 2),
                _ => (1, 2, 1),
            };
            assert!(d.staying_power <= sp && d.magazine_depth <= mag);
            assert_eq!(d.max_engagement_capacity, cap);
        }
    }
    assert_eq!(sim.current_step(), 2);
}
