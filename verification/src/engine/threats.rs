//! What the attackers launch at each step.

use vstd::prelude::*;

use crate::models::{Attacker, Chance, IncomingThreat, ThreatLaunch};

verus! {

/// The missiles an attacker fires at `step` (none once its schedule ends).
pub open spec fn salvo_at(a: Attacker, step: int) -> u32 {
    if 0 <= step < a.salvo_schedule@.len() {
        a.salvo_schedule@[step]
    } else {
        0
    }
}

/// The threats one attacker's salvo at `step` adds, each with chance `pko`.
pub open spec fn salvo_threats(a: Attacker, step: int, pko: Chance) -> Seq<IncomingThreat> {
    Seq::new(salvo_at(a, step) as nat, |k: int| IncomingThreat { target_name: a.target_name, pko })
}

/// Every threat launched at `step`: the attackers' salvos in attacker order,
/// attacker `i`'s threats carrying the resolved chance `pkos[i]`.
pub open spec fn spec_threat_pool(attackers: Seq<Attacker>, step: int, pkos: Seq<Chance>) -> Seq<
    IncomingThreat,
>
    decreases attackers.len(),
{
    if attackers.len() == 0 {
        Seq::empty()
    } else {
        spec_threat_pool(attackers.drop_last(), step, pkos) + salvo_threats(
            attackers.last(),
            step,
            pkos[attackers.len() - 1],
        )
    }
}

/// The launch record of one attacker at `step`, if it fires anything.
pub open spec fn launch_of(a: Attacker, step: int) -> Seq<ThreatLaunch> {
    if salvo_at(a, step) > 0 {
        seq![
            ThreatLaunch {
                attacker_name: a.name,
                target_name: a.target_name,
                missiles_fired: salvo_at(a, step),
                pko_label: a.pko_label,
            },
        ]
    } else {
        Seq::empty()
    }
}

/// The launch records of every attacker that fires at `step`, in order.
pub open spec fn spec_launch_events(attackers: Seq<Attacker>, step: int) -> Seq<ThreatLaunch>
    decreases attackers.len(),
{
    if attackers.len() == 0 {
        Seq::empty()
    } else {
        spec_launch_events(attackers.drop_last(), step) + launch_of(attackers.last(), step)
    }
}

/// The number of time steps: the length of the longest salvo schedule.
pub open spec fn spec_max_steps(attackers: Seq<Attacker>) -> nat
    decreases attackers.len(),
{
    if attackers.len() == 0 {
        0
    } else {
        let rest = spec_max_steps(attackers.drop_last());
        let here = attackers.last().salvo_schedule@.len();
        if here > rest {
            here
        } else {
            rest
        }
    }
}

/// The longest schedule is at least as long as each schedule, and is one
/// of them when there are attackers.
pub proof fn lemma_max_steps(attackers: Seq<Attacker>)
    ensures
        forall|i: int|
            0 <= i < attackers.len() ==> (#[trigger] attackers[i]).salvo_schedule@.len()
                <= spec_max_steps(attackers),
        attackers.len() > 0 ==> exists|i: int|
            0 <= i < attackers.len() && (#[trigger] attackers[i]).salvo_schedule@.len()
                == spec_max_steps(attackers),
    decreases attackers.len(),
{
    if attackers.len() > 0 {
        let rest = attackers.drop_last();
        lemma_max_steps(rest);
        assert forall|i: int| 0 <= i < attackers.len() implies (#[trigger] attackers[i]).salvo_schedule@.len()
            <= spec_max_steps(attackers) by {
            if i < attackers.len() - 1 {
                assert(attackers[i] == rest[i]);
            }
        }
        if attackers.last().salvo_schedule@.len() > spec_max_steps(rest) {
            assert(attackers[attackers.len() - 1].salvo_schedule@.len() == spec_max_steps(attackers));
        } else if rest.len() > 0 {
            let i = choose|i: int| 0 <= i < rest.len() && (#[trigger] rest[i]).salvo_schedule@.len()
                == spec_max_steps(rest);
            assert(attackers[i] == rest[i]);
        } else {
            assert(attackers[0].salvo_schedule@.len() == spec_max_steps(attackers));
        }
    }
}

/// The number of time steps a scenario runs for: the length of the longest
/// salvo schedule (0 without attackers).
pub fn determine_max_steps(attackers: &Vec<Attacker>) -> (n: usize)
    ensures
        n == spec_max_steps(attackers@),
        forall|i: int|
            0 <= i < attackers@.len() ==> (#[trigger] attackers@[i]).salvo_schedule@.len() <= n,
        attackers@.len() > 0 ==> exists|i: int|
            0 <= i < attackers@.len() && (#[trigger] attackers@[i]).salvo_schedule@.len() == n,
        attackers@.len() == 0 ==> n == 0,
{
    proof {
        lemma_max_steps(attackers@);
    }
    let mut n: usize = 0;
    let mut i: usize = 0;
    while i < attackers.len()
        invariant
            0 <= i <= attackers.len(),
            n == spec_max_steps(attackers@.take(i as int)),
        decreases attackers.len() - i,
    {
        assert(attackers@.take(i + 1).drop_last() =~= attackers@.take(i as int));
        let len = attackers[i].salvo_schedule.len();
        if len > n {
            n = len;
        }
        i = i + 1;
    }
    assert(attackers@.take(attackers.len() as int) =~= attackers@);
    n
}

/// Every threat launched at `step`; attacker `i`'s threats carry `pkos[i]`.
pub fn generate_threat_pool(attackers: &Vec<Attacker>, step: usize, pkos: &Vec<Chance>) -> (pool:
    Vec<IncomingThreat>)
    requires
        pkos.len() == attackers.len(),
    ensures
        pool@ == spec_threat_pool(attackers@, step as int, pkos@),
{
    let mut pool: Vec<IncomingThreat> = Vec::new();
    let mut i: usize = 0;
    while i < attackers.len()
        invariant
            0 <= i <= attackers.len(),
            pkos.len() == attackers.len(),
            pool@ == spec_threat_pool(attackers@.take(i as int), step as int, pkos@),
        decreases attackers.len() - i,
    {
        let ghost base = pool@;
        let attacker = &attackers[i];
        assert(attackers@.take(i + 1).drop_last() =~= attackers@.take(i as int));
        if step < attacker.salvo_schedule.len() {
            let missiles_fired = attacker.salvo_schedule[step];
            let resolved_pko = pkos[i];
            let mut k: u32 = 0;
            while k < missiles_fired
                invariant
                    k <= missiles_fired,
                    pool@ == base + Seq::new(
                        k as nat,
                        |m: int| IncomingThreat { target_name: attacker.target_name, pko: resolved_pko },
                    ),
                decreases missiles_fired - k,
            {
                pool.push(IncomingThreat { target_name: attacker.target_name.clone(), pko: resolved_pko });
                k = k + 1;
                assert(pool@ =~= base + Seq::new(
                    k as nat,
                    |m: int| IncomingThreat { target_name: attacker.target_name, pko: resolved_pko },
                ));
            }
            assert(pool@ =~= base + salvo_threats(*attacker, step as int, pkos@[i as int]));
        } else {
            assert(salvo_threats(*attacker, step as int, pkos@[i as int]) =~= Seq::empty());
            assert(pool@ =~= base + salvo_threats(*attacker, step as int, pkos@[i as int]));
        }
        i = i + 1;
    }
    assert(attackers@.take(attackers.len() as int) =~= attackers@);
    pool
}

/// Launch records for `step`: one per attacker that fires a non-empty
/// salvo then, in attacker order.
pub fn build_launch_events(attackers: &Vec<Attacker>, step: usize) -> (events: Vec<ThreatLaunch>)
    ensures
        events@ == spec_launch_events(attackers@, step as int),
{
    let mut events: Vec<ThreatLaunch> = Vec::new();
    let mut i: usize = 0;
    while i < attackers.len()
        invariant
            0 <= i <= attackers.len(),
            events@ == spec_launch_events(attackers@.take(i as int), step as int),
        decreases attackers.len() - i,
    {
        let atk = &attackers[i];
        assert(attackers@.take(i + 1).drop_last() =~= attackers@.take(i as int));
        let ghost base = events@;
        if step < atk.salvo_schedule.len() {
            let n = atk.salvo_schedule[step];
            if n > 0 {
                events.push(
                    ThreatLaunch {
                        attacker_name: atk.name.clone(),
                        target_name: atk.target_name.clone(),
                        missiles_fired: n,
                        pko_label: atk.pko_label.clone(),
                    },
                );
            }
        }
        assert(events@ =~= base + launch_of(*atk, step as int));
        i = i + 1;
    }
    assert(attackers@.take(attackers.len() as int) =~= attackers@);
    events
}

/// The missiles an attacker fires in the steps before `s`.
pub open spec fn fired_before(a: Attacker, s: nat) -> int
    decreases s,
{
    if s == 0 {
        0
    } else {
        fired_before(a, (s - 1) as nat) + salvo_at(a, s - 1)
    }
}

/// The missiles an attacker's whole schedule fires.
pub open spec fn schedule_total(a: Attacker) -> int {
    fired_before(a, a.salvo_schedule@.len())
}



/// An attacker never fires more than its schedule holds.
pub proof fn lemma_fired_before(a: Attacker, s: nat)
    ensures
        0 <= fired_before(a, s) <= schedule_total(a),
        s >= a.salvo_schedule@.len() ==> fired_before(a, s) == schedule_total(a),
    decreases s,
{
    if s == 0 {
        lemma_fired_monotone(a, 0, a.salvo_schedule@.len());
    } else {
        lemma_fired_before(a, (s - 1) as nat);
        if s <= a.salvo_schedule@.len() {
            lemma_fired_monotone(a, s, a.salvo_schedule@.len());
        } else {
            assert(salvo_at(a, s - 1) == 0);
        }
    }
}

/// Firing counts only grow with time.
pub proof fn lemma_fired_monotone(a: Attacker, s: nat, u: nat)
    requires
        s <= u,
    ensures
        fired_before(a, s) <= fired_before(a, u),
    decreases u,
{
    if s < u {
        lemma_fired_monotone(a, s, (u - 1) as nat);
    }
}


/// Missiles launched according to a list of launch records.
pub open spec fn launched_sum(launches: Seq<ThreatLaunch>) -> int
    decreases launches.len(),
{
    if launches.len() == 0 {
        0
    } else {
        launched_sum(launches.drop_last()) + launches.last().missiles_fired
    }
}

/// The launch records of a step account for exactly the threats it
/// launches: their missile counts add up to the size of the threat pool.
pub proof fn lemma_launches_match_pool(attackers: Seq<Attacker>, step: int, pkos: Seq<Chance>)
    ensures
        launched_sum(spec_launch_events(attackers, step)) == spec_threat_pool(
            attackers,
            step,
            pkos,
        ).len(),
    decreases attackers.len(),
{
    if attackers.len() > 0 {
        let rest = attackers.drop_last();
        lemma_launches_match_pool(rest, step, pkos);
        let a = attackers.last();
        let prev = spec_launch_events(rest, step);
        if salvo_at(a, step) > 0 {
            let l = launch_of(a, step);
            assert(prev + l =~= prev.push(l[0]));
            assert((prev + l).drop_last() =~= prev);
        } else {
            assert(prev + launch_of(a, step) =~= prev);
        }
    }
}

/// The number of threats among `threats` aimed at `name`.
pub open spec fn aimed_count(threats: Seq<IncomingThreat>, name: Seq<char>) -> nat
    decreases threats.len(),
{
    if threats.len() == 0 {
        0
    } else {
        aimed_count(threats.drop_last(), name) + if threats.last().target_name@ == name {
            1nat
        } else {
            0nat
        }
    }
}

/// Counting threats aimed at a name distributes over concatenation.
pub proof fn lemma_aimed_count_concat(a: Seq<IncomingThreat>, b: Seq<IncomingThreat>, name: Seq<char>)
    ensures
        aimed_count(a + b, name) == aimed_count(a, name) + aimed_count(b, name),
    decreases b.len(),
{
    if b.len() > 0 {
        lemma_aimed_count_concat(a, b.drop_last(), name);
        assert((a + b).drop_last() =~= a + b.drop_last());
    } else {
        assert(a + b =~= a);
    }
}

/// The threats of one salvo aimed at `name`: all of them if its attacker
/// targets `name`, none otherwise.
proof fn lemma_salvo_aimed(a: Attacker, step: int, pko: Chance, name: Seq<char>, n: nat)
    requires
        n <= salvo_at(a, step),
    ensures
        aimed_count(salvo_threats(a, step, pko).take(n as int), name) == if a.target_name@ == name {
            n
        } else {
            0
        },
    decreases n,
{
    if n > 0 {
        let t = salvo_threats(a, step, pko);
        lemma_salvo_aimed(a, step, pko, name, (n - 1) as nat);
        assert(t.take(n as int).drop_last() =~= t.take(n - 1));
    } else {
        assert(salvo_threats(a, step, pko).take(0) =~= Seq::<IncomingThreat>::empty());
    }
}

/// The missiles fired at `name` in the steps before `s`.
pub open spec fn aimed_fired_before(attackers: Seq<Attacker>, name: Seq<char>, s: nat) -> int
    decreases attackers.len(),
{
    if attackers.len() == 0 {
        0
    } else {
        aimed_fired_before(attackers.drop_last(), name, s) + if attackers.last().target_name@
            == name {
            fired_before(attackers.last(), s)
        } else {
            0
        }
    }
}

/// The missiles the whole scenario fires at `name`.
pub open spec fn aimed_total(attackers: Seq<Attacker>, name: Seq<char>) -> int
    decreases attackers.len(),
{
    if attackers.len() == 0 {
        0
    } else {
        aimed_total(attackers.drop_last(), name) + if attackers.last().target_name@ == name {
            schedule_total(attackers.last())
        } else {
            0
        }
    }
}

/// The threats launched at `step` aimed at `name` are the missiles fired at
/// it then; and no prefix of the steps fires more at `name` than the whole
/// scenario.
pub proof fn lemma_aimed_counts(attackers: Seq<Attacker>, name: Seq<char>, step: nat, pkos: Seq<Chance>)
    ensures
        aimed_fired_before(attackers, name, step + 1) == aimed_fired_before(attackers, name, step)
            + aimed_count(spec_threat_pool(attackers, step as int, pkos), name),
        0 <= aimed_fired_before(attackers, name, step) <= aimed_total(attackers, name),
        0 <= aimed_total(attackers, name),
        aimed_fired_before(attackers, name, 0) == 0,
    decreases attackers.len(),
{
    if attackers.len() > 0 {
        let a = attackers.last();
        lemma_aimed_counts(attackers.drop_last(), name, step, pkos);
        lemma_fired_before(a, step);
        lemma_fired_before(a, 0);
        let pko = pkos[attackers.len() - 1];
        lemma_aimed_count_concat(
            spec_threat_pool(attackers.drop_last(), step as int, pkos),
            salvo_threats(a, step as int, pko),
            name,
        );
        lemma_salvo_aimed(a, step as int, pko, name, salvo_at(a, step as int) as nat);
        assert(salvo_threats(a, step as int, pko).take(salvo_at(a, step as int) as int)
            =~= salvo_threats(a, step as int, pko));
    }
}


/// The number of threats from index `j` on aimed at `name`.
pub open spec fn aimed_from(threats: Seq<IncomingThreat>, name: Seq<char>, j: int) -> nat
    decreases threats.len() - j,
{
    if j < 0 || j >= threats.len() {
        0
    } else {
        aimed_from(threats, name, j + 1) + if threats[j].target_name@ == name {
            1nat
        } else {
            0nat
        }
    }
}

/// Counting from index `j` on, plus counting the first `j`, counts all.
pub proof fn lemma_aimed_from_count(s: Seq<IncomingThreat>, name: Seq<char>, j: int)
    requires
        0 <= j <= s.len(),
    ensures
        aimed_from(s, name, j) + aimed_count(s.take(j), name) == aimed_count(s, name),
    decreases s.len() - j,
{
    if j < s.len() {
        lemma_aimed_from_count(s, name, j + 1);
        assert(s.take(j + 1).drop_last() =~= s.take(j));
    } else {
        assert(s.take(j) =~= s);
    }
}


/// A prefix of the attackers fires no more at `name` than all of them.
pub proof fn lemma_aimed_within_prefix(attackers: Seq<Attacker>, name: Seq<char>, i: int)
    requires
        0 <= i <= attackers.len(),
    ensures
        0 <= aimed_total(attackers.take(i), name) <= aimed_total(attackers, name),
    decreases attackers.len(),
{
    if i < attackers.len() {
        lemma_aimed_within_prefix(attackers.drop_last(), name, i);
        assert(attackers.drop_last().take(i) =~= attackers.take(i));
        lemma_fired_before(attackers.last(), 0);
    } else {
        assert(attackers.take(i) =~= attackers);
        lemma_aimed_counts(attackers, name, 0, Seq::empty());
    }
}

/// The sum of an attacker's salvo schedule, if it fits in a `u32`.
pub fn schedule_sum(a: &Attacker) -> (n: Option<u32>)
    ensures
        n is Some <==> schedule_total(*a) <= u32::MAX,
        n matches Some(v) ==> v == schedule_total(*a),
{
    let mut sum: u32 = 0;
    let mut t: usize = 0;
    proof {
        lemma_fired_before(*a, 0);
    }
    while t < a.salvo_schedule.len()
        invariant
            0 <= t <= a.salvo_schedule.len(),
            sum == fired_before(*a, t as nat),
        decreases a.salvo_schedule.len() - t,
    {
        let n = a.salvo_schedule[t];
        proof {
            lemma_fired_monotone(*a, (t + 1) as nat, a.salvo_schedule@.len());
        }
        if sum > u32::MAX - n {
            return None;
        }
        sum = sum + n;
        t = t + 1;
    }
    Some(sum)
}

/// The missiles the scenario fires at `name`, if they fit in a `u32`.
pub fn aimed_missiles(attackers: &Vec<Attacker>, name: &String) -> (m: Option<u32>)
    ensures
        m is Some <==> aimed_total(attackers@, name@) <= u32::MAX,
        m matches Some(v) ==> v == aimed_total(attackers@, name@),
{
    let mut m: u32 = 0;
    let mut i: usize = 0;
    while i < attackers.len()
        invariant
            0 <= i <= attackers.len(),
            m == aimed_total(attackers@.take(i as int), name@),
        decreases attackers.len() - i,
    {
        assert(attackers@.take(i + 1).drop_last() =~= attackers@.take(i as int));
        proof {
            lemma_aimed_within_prefix(attackers@, name@, i + 1);
            lemma_aimed_within_prefix(attackers@, name@, i as int);
            lemma_fired_before(attackers@[i as int], 0);
        }
        if attackers[i].target_name == *name {
            match schedule_sum(&attackers[i]) {
                Some(t) => {
                    if m > u32::MAX - t {
                        return None;
                    }
                    m = m + t;
                },
                None => {
                    return None;
                },
            }
        }
        i = i + 1;
    }
    assert(attackers@.take(attackers.len() as int) =~= attackers@);
    Some(m)
}

} // verus!