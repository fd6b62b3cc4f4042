//! Terminal impact: threats that got through roll to hit their targets.

use vstd::prelude::*;

use crate::draws::DrawSource;
use crate::engine::interception::{extends, lemma_extends_push, lemma_extends_trans};
use crate::engine::threats::{aimed_count, aimed_from, lemma_aimed_from_count};
use crate::engine::interception::lemma_roll_extremes;
use crate::models::{IncomingThreat, ROLL_SCALE, RunDefender, roll_succeeds};

verus! {

/// The first index from `i` on of a defender named `name` (or the length).
pub open spec fn first_named(defenders: Seq<RunDefender>, name: Seq<char>, i: nat) -> nat
    decreases defenders.len() - i,
{
    if i >= defenders.len() {
        defenders.len()
    } else if defenders[i as int].name@ == name {
        i
    } else {
        first_named(defenders, name, i + 1)
    }
}

/// A defender after one hit: one more hit taken, one less staying power
/// (never below zero).
pub open spec fn struck(d: RunDefender) -> RunDefender {
    RunDefender {
        name: d.name,
        staying_power: if d.staying_power > 0 {
            (d.staying_power - 1) as u32
        } else {
            0
        },
        hits_taken: (d.hits_taken + 1) as u32,
        magazine_depth: d.magazine_depth,
        max_engagement_capacity: d.max_engagement_capacity,
        pkd: d.pkd,
        doctrine: d.doctrine,
    }
}

/// A hit on the first defender named `name`; nothing changes if there is
/// none.
pub open spec fn strike(defenders: Seq<RunDefender>, name: Seq<char>) -> Seq<RunDefender> {
    let k = first_named(defenders, name, 0);
    if k < defenders.len() {
        defenders.update(k as int, struck(defenders[k as int]))
    } else {
        defenders
    }
}

/// The threats from index `j` on roll, threat `j` with the word at `pos + (j
/// - start)`: each success hits its target.
pub open spec fn impact_from(
    defenders: Seq<RunDefender>,
    threats: Seq<IncomingThreat>,
    j: int,
    draws: Seq<u64>,
    pos: int,
) -> Seq<RunDefender>
    decreases threats.len() - j,
{
    if j < 0 || j >= threats.len() {
        defenders
    } else {
        let next = if roll_succeeds(draws[pos], threats[j].pko) {
            strike(defenders, threats[j].target_name@)
        } else {
            defenders
        };
        impact_from(next, threats, j + 1, draws, pos + 1)
    }
}

/// The terminal impact phase, reading one random word per threat from
/// `start` on.
pub open spec fn spec_impact(
    defenders: Seq<RunDefender>,
    threats: Seq<IncomingThreat>,
    draws: Seq<u64>,
    start: int,
) -> Seq<RunDefender> {
    impact_from(defenders, threats, 0, draws, start)
}

/// The index of the first defender named `name`, or the length if none is.
pub fn find_named(defenders: &Vec<RunDefender>, name: &String) -> (k: usize)
    ensures
        k == first_named(defenders@, name@, 0),
{
    let mut k: usize = 0;
    while k < defenders.len()
        invariant
            0 <= k <= defenders.len(),
            first_named(defenders@, name@, 0) == first_named(defenders@, name@, k as nat),
        decreases defenders.len() - k,
    {
        if defenders[k].name == *name {
            return k;
        }
        k = k + 1;
    }
    k
}

/// Each surviving threat rolls its PKO; a success costs the first defender
/// named as its target one point of staying power (never below zero) and
/// counts one hit taken.  One random word is drawn per threat, whether or
/// not its target exists.
pub fn terminal_impact_phase<S: DrawSource>(
    defenders: &mut Vec<RunDefender>,
    threats: &Vec<IncomingThreat>,
    draws: &mut S,
)
    requires
        forall|i: int|
            0 <= i < old(defenders)@.len() ==> #[trigger] old(defenders)@[i].hits_taken
                + aimed_count(threats@, old(defenders)@[i].name@) <= u32::MAX,
    ensures
        extends(final(draws).drawn(), old(draws).drawn()),
        final(draws).drawn().len() == old(draws).drawn().len() + threats@.len(),
        final(defenders)@ == spec_impact(
            old(defenders)@,
            threats@,
            final(draws).drawn(),
            old(draws).drawn().len() as int,
        ),
        forall|t: Seq<u64>|
            #![trigger spec_impact(old(defenders)@, threats@, t, old(draws).drawn().len() as int)]
            extends(t, final(draws).drawn()) ==> final(defenders)@ == spec_impact(
                old(defenders)@,
                threats@,
                t,
                old(draws).drawn().len() as int,
            ),
        final(defenders)@.len() == old(defenders)@.len(),
        forall|i: int|
            0 <= i < final(defenders)@.len() ==> #[trigger] final(defenders)@[i].hits_taken
                <= old(defenders)@[i].hits_taken + aimed_count(threats@, old(defenders)@[i].name@),
{
    let ghost start = draws.drawn();
    let ghost d0 = defenders@;
    let mut j: usize = 0;
    while j < threats.len()
        invariant
            0 <= j <= threats.len(),
            start == old(draws).drawn(),
            d0 == old(defenders)@,
            extends(draws.drawn(), start),
            draws.drawn().len() == start.len() + j,
            defenders@.len() == d0.len(),
            forall|i: int|
                0 <= i < defenders@.len() ==> {
                    &&& (#[trigger] defenders@[i]).name == d0[i].name
                    &&& defenders@[i].hits_taken <= d0[i].hits_taken + aimed_count(
                        threats@.take(j as int),
                        d0[i].name@,
                    )
                },
            forall|i: int|
                0 <= i < d0.len() ==> #[trigger] d0[i].hits_taken + aimed_count(threats@, d0[i].name@)
                    <= u32::MAX,
            forall|t: Seq<u64>|
                #![trigger impact_from(d0, threats@, 0, t, start.len() as int)]
                extends(t, draws.drawn()) ==> impact_from(d0, threats@, 0, t, start.len() as int)
                    == impact_from(defenders@, threats@, j as int, t, draws.drawn().len() as int),
        decreases threats.len() - j,
    {
        let ghost cur = defenders@;
        let ghost before = draws.drawn();
        let threat = &threats[j];
        let w = draws.next_draw();
        proof {
            lemma_extends_push(before, w);
            lemma_extends_trans(draws.drawn(), before, start);
            assert(threats@.take(j + 1).drop_last() =~= threats@.take(j as int));
            assert(threats@.take(j + 1).last() == threats@[j as int]);
        }
        if threat.pko.succeeds(w) {
            let k = find_named(defenders, &threat.target_name);
            if k < defenders.len() {
                proof {
                    lemma_first_named(cur, threat.target_name@, 0);
                    lemma_aimed_from_count(threats@, d0[k as int].name@, j + 1);
                }
                assert(defenders@[k as int].hits_taken + 1 <= d0[k as int].hits_taken + aimed_count(
                    threats@.take(j + 1),
                    d0[k as int].name@,
                ));
                let sp = defenders[k].staying_power;
                defenders[k].hits_taken = defenders[k].hits_taken + 1;
                defenders[k].staying_power = if sp > 0 {
                    sp - 1
                } else {
                    0
                };
                assert(defenders@ =~= strike(cur, threat.target_name@));
            }
        }
        assert forall|i: int| 0 <= i < defenders@.len() implies {
            &&& (#[trigger] defenders@[i]).name == d0[i].name
            &&& defenders@[i].hits_taken <= d0[i].hits_taken + aimed_count(
                threats@.take(j + 1),
                d0[i].name@,
            )
        } by {
            assert(cur[i].hits_taken <= d0[i].hits_taken + aimed_count(threats@.take(j as int), d0[i].name@));
        }
        assert forall|t: Seq<u64>|
            #![trigger impact_from(d0, threats@, 0, t, start.len() as int)]
            extends(t, draws.drawn()) implies impact_from(d0, threats@, 0, t, start.len() as int)
                == impact_from(defenders@, threats@, j + 1, t, draws.drawn().len() as int) by {
            lemma_extends_trans(t, draws.drawn(), before);
            assert(t[before.len() as int] == w);
            assert(impact_from(d0, threats@, 0, t, start.len() as int) == impact_from(
                cur,
                threats@,
                j as int,
                t,
                before.len() as int,
            ));
        }
        j = j + 1;
    }
    assert(extends(draws.drawn(), draws.drawn()));
    assert(threats@.take(threats@.len() as int) =~= threats@);
}

/// Impact only changes hits taken and staying power: names, magazines,
/// capacities, PkDs and doctrines stay as they were, defender by defender;
/// hits taken never decrease, and staying power drops by the new hits,
/// never below zero.
pub open spec fn only_damage_taken(after: Seq<RunDefender>, before: Seq<RunDefender>) -> bool {
    &&& after.len() == before.len()
    &&& forall|k: int|
        0 <= k < after.len() ==> {
            &&& (#[trigger] after[k]).name == before[k].name
            &&& after[k].magazine_depth == before[k].magazine_depth
            &&& after[k].max_engagement_capacity == before[k].max_engagement_capacity
            &&& after[k].pkd == before[k].pkd
            &&& after[k].doctrine == before[k].doctrine
            &&& after[k].hits_taken >= before[k].hits_taken
            &&& after[k].staying_power == if before[k].staying_power >= after[k].hits_taken
                - before[k].hits_taken {
                before[k].staying_power - (after[k].hits_taken - before[k].hits_taken)
            } else {
                0
            }
        }
}

/// The index `first_named` finds bears the name, and no earlier one does.
pub proof fn lemma_first_named(defenders: Seq<RunDefender>, name: Seq<char>, i: nat)
    ensures
        i <= defenders.len() ==> i <= first_named(defenders, name, i) <= defenders.len(),
        first_named(defenders, name, i) < defenders.len() ==> defenders[first_named(
            defenders,
            name,
            i,
        ) as int].name@ == name,
        forall|k: int|
            i <= k < first_named(defenders, name, i) ==> defenders[k].name@ != name,
    decreases defenders.len() - i,
{
    if i < defenders.len() && defenders[i as int].name@ != name {
        lemma_first_named(defenders, name, i + 1);
    }
}

/// A defender named `name` at index `k` means `first_named` finds one.
pub proof fn lemma_first_named_found(defenders: Seq<RunDefender>, name: Seq<char>, k: int)
    requires
        0 <= k < defenders.len(),
        defenders[k].name@ == name,
    ensures
        first_named(defenders, name, 0) <= k,
{
    lemma_first_named(defenders, name, 0);
}

/// Impact from threat `j` on only deals damage.
pub proof fn lemma_impact_from(
    defenders: Seq<RunDefender>,
    threats: Seq<IncomingThreat>,
    j: int,
    draws: Seq<u64>,
    pos: int,
)
    requires
        forall|i: int|
            0 <= i < defenders.len() ==> #[trigger] defenders[i].hits_taken + aimed_from(
                threats,
                defenders[i].name@,
                j,
            ) <= u32::MAX,
    ensures
        only_damage_taken(impact_from(defenders, threats, j, draws, pos), defenders),
    decreases threats.len() - j,
{
    if 0 <= j < threats.len() {
        let next = if roll_succeeds(draws[pos], threats[j].pko) {
            strike(defenders, threats[j].target_name@)
        } else {
            defenders
        };
        lemma_first_named(defenders, threats[j].target_name@, 0);
        assert forall|i: int| 0 <= i < next.len() implies #[trigger] next[i].hits_taken
            + aimed_from(threats, next[i].name@, j + 1) <= u32::MAX by {
            assert(defenders[i].hits_taken + aimed_from(threats, defenders[i].name@, j) <= u32::MAX);
            assert(next[i].name == defenders[i].name);
        }
        lemma_impact_from(next, threats, j + 1, draws, pos + 1);
    }
}

/// The terminal impact phase only deals damage.
pub proof fn lemma_impact_laws(
    defenders: Seq<RunDefender>,
    threats: Seq<IncomingThreat>,
    draws: Seq<u64>,
    start: int,
)
    requires
        forall|i: int|
            0 <= i < defenders.len() ==> #[trigger] defenders[i].hits_taken + aimed_count(
                threats,
                defenders[i].name@,
            ) <= u32::MAX,
    ensures
        only_damage_taken(spec_impact(defenders, threats, draws, start), defenders),
{
    assert forall|i: int| 0 <= i < defenders.len() implies #[trigger] defenders[i].hits_taken
        + aimed_from(threats, defenders[i].name@, 0) <= u32::MAX by {
        lemma_aimed_from_count(threats, defenders[i].name@, 0);
        assert(threats.take(0) =~= Seq::<IncomingThreat>::empty());
    }
    lemma_impact_from(defenders, threats, 0, draws, start);
}

/// Impact from threat `j` on adds to each defender at most one hit per
/// threat aimed at it.
proof fn lemma_hits_from(
    defenders: Seq<RunDefender>,
    threats: Seq<IncomingThreat>,
    j: int,
    draws: Seq<u64>,
    pos: int,
)
    requires
        0 <= j,
        forall|i: int|
            0 <= i < defenders.len() ==> #[trigger] defenders[i].hits_taken + aimed_from(
                threats,
                defenders[i].name@,
                j,
            ) <= u32::MAX,
    ensures
        forall|i: int|
            0 <= i < defenders.len() ==> #[trigger] impact_from(defenders, threats, j, draws, pos)[i].hits_taken
                <= defenders[i].hits_taken + aimed_from(threats, defenders[i].name@, j),
    decreases threats.len() - j,
{
    if j < threats.len() {
        let name = threats[j].target_name@;
        let next = if roll_succeeds(draws[pos], threats[j].pko) {
            strike(defenders, name)
        } else {
            defenders
        };
        lemma_first_named(defenders, name, 0);
        assert forall|i: int| 0 <= i < next.len() implies #[trigger] next[i].hits_taken
            + aimed_from(threats, next[i].name@, j + 1) <= u32::MAX by {
            assert(defenders[i].hits_taken + aimed_from(threats, defenders[i].name@, j) <= u32::MAX);
            assert(next[i].name == defenders[i].name);
        }
        lemma_hits_from(next, threats, j + 1, draws, pos + 1);
        assert forall|i: int| 0 <= i < defenders.len() implies #[trigger] impact_from(
            defenders,
            threats,
            j,
            draws,
            pos,
        )[i].hits_taken <= defenders[i].hits_taken + aimed_from(threats, defenders[i].name@, j) by {
            assert(next[i].name == defenders[i].name);
            assert(next[i].hits_taken <= defenders[i].hits_taken + if name == defenders[i].name@ {
                1int
            } else {
                0int
            });
        }
    }
}

/// A defender takes at most one hit per surviving threat aimed at it: in
/// the terminal impact phase each defender's hits grow by at most the
/// number of threats whose target name is its name.
pub proof fn lemma_hits_per_target(
    defenders: Seq<RunDefender>,
    threats: Seq<IncomingThreat>,
    draws: Seq<u64>,
    start: int,
)
    requires
        forall|i: int|
            0 <= i < defenders.len() ==> #[trigger] defenders[i].hits_taken + aimed_count(
                threats,
                defenders[i].name@,
            ) <= u32::MAX,
    ensures
        forall|i: int|
            0 <= i < defenders.len() ==> #[trigger] spec_impact(defenders, threats, draws, start)[i].hits_taken
                <= defenders[i].hits_taken + aimed_count(threats, defenders[i].name@),
{
    assert forall|i: int| 0 <= i < defenders.len() implies #[trigger] defenders[i].hits_taken
        + aimed_from(threats, defenders[i].name@, 0) <= u32::MAX by {
        lemma_aimed_from_count(threats, defenders[i].name@, 0);
        assert(threats.take(0) =~= Seq::<IncomingThreat>::empty());
    }
    lemma_hits_from(defenders, threats, 0, draws, start);
    assert forall|i: int| 0 <= i < defenders.len() implies #[trigger] spec_impact(
        defenders,
        threats,
        draws,
        start,
    )[i].hits_taken <= defenders[i].hits_taken + aimed_count(threats, defenders[i].name@) by {
        lemma_aimed_from_count(threats, defenders[i].name@, 0);
        assert(threats.take(0) =~= Seq::<IncomingThreat>::empty());
    }
}

/// The threats from index `j` on aimed at `name` whose PKO always succeeds.
pub open spec fn certain_from(threats: Seq<IncomingThreat>, name: Seq<char>, j: int) -> nat
    decreases threats.len() - j,
{
    if j < 0 || j >= threats.len() {
        0
    } else {
        certain_from(threats, name, j + 1) + if threats[j].target_name@ == name
            && threats[j].pko.bound >= ROLL_SCALE {
            1nat
        } else {
            0nat
        }
    }
}

/// The threats from index `j` on aimed at `name` whose PKO can succeed.
pub open spec fn possible_from(threats: Seq<IncomingThreat>, name: Seq<char>, j: int) -> nat
    decreases threats.len() - j,
{
    if j < 0 || j >= threats.len() {
        0
    } else {
        possible_from(threats, name, j + 1) + if threats[j].target_name@ == name
            && threats[j].pko.bound > 0 {
            1nat
        } else {
            0nat
        }
    }
}

/// Whether no defender before index `i` bears defender `i`'s name.
pub open spec fn first_of_name(defenders: Seq<RunDefender>, i: int) -> bool {
    forall|k: int| 0 <= k < i ==> (#[trigger] defenders[k]).name@ != defenders[i].name@
}

/// Impact from threat `j` on: each threat rolls its own PKO, and a success
/// hits the first defender bearing its target name.
proof fn lemma_hits_follow_pko(
    defenders: Seq<RunDefender>,
    threats: Seq<IncomingThreat>,
    j: int,
    draws: Seq<u64>,
    pos: int,
)
    requires
        0 <= j,
        forall|i: int|
            0 <= i < defenders.len() ==> #[trigger] defenders[i].hits_taken + aimed_from(
                threats,
                defenders[i].name@,
                j,
            ) <= u32::MAX,
    ensures
        impact_from(defenders, threats, j, draws, pos).len() == defenders.len(),
        forall|i: int|
            0 <= i < defenders.len() ==> {
                let h = (#[trigger] impact_from(defenders, threats, j, draws, pos)[i]).hits_taken
                    - defenders[i].hits_taken;
                &&& impact_from(defenders, threats, j, draws, pos)[i].name == defenders[i].name
                &&& first_of_name(defenders, i) ==> certain_from(threats, defenders[i].name@, j) <= h
                    <= possible_from(threats, defenders[i].name@, j)
                &&& !first_of_name(defenders, i) ==> h == 0
            },
    decreases threats.len() - j,
{
    if j < threats.len() {
        let name = threats[j].target_name@;
        let ok = roll_succeeds(draws[pos], threats[j].pko);
        let next = if ok {
            strike(defenders, name)
        } else {
            defenders
        };
        lemma_first_named(defenders, name, 0);
        lemma_roll_extremes(draws[pos], threats[j].pko);
        let f = first_named(defenders, name, 0) as int;
        assert forall|i: int| 0 <= i < next.len() implies #[trigger] next[i].hits_taken
            + aimed_from(threats, next[i].name@, j + 1) <= u32::MAX by {
            assert(defenders[i].hits_taken + aimed_from(threats, defenders[i].name@, j) <= u32::MAX);
            assert(next[i].name == defenders[i].name);
        }
        lemma_hits_follow_pko(next, threats, j + 1, draws, pos + 1);
        assert forall|k: int| 0 <= k < next.len() implies #[trigger] next[k].name == defenders[k].name by {
            if ok && f < defenders.len() && k == f {
                assert(next[k] == struck(defenders[k]));
            }
        }
        assert forall|i: int| 0 <= i < defenders.len() implies first_of_name(next, i) == first_of_name(
            defenders,
            i,
        ) by {
            if first_of_name(defenders, i) {
                assert forall|k: int| 0 <= k < i implies (#[trigger] next[k]).name@ != next[i].name@ by {
                    assert(next[k].name == defenders[k].name);
                    assert(defenders[k].name@ != defenders[i].name@);
                }
            }
            if first_of_name(next, i) {
                assert forall|k: int| 0 <= k < i implies (#[trigger] defenders[k]).name@
                    != defenders[i].name@ by {
                    assert(next[k].name == defenders[k].name);
                    assert(next[k].name@ != next[i].name@);
                }
            }
        }
        assert forall|i: int| 0 <= i < defenders.len() implies {
            let h = (#[trigger] impact_from(defenders, threats, j, draws, pos)[i]).hits_taken
                - defenders[i].hits_taken;
            &&& impact_from(defenders, threats, j, draws, pos)[i].name == defenders[i].name
            &&& first_of_name(defenders, i) ==> certain_from(threats, defenders[i].name@, j) <= h
                <= possible_from(threats, defenders[i].name@, j)
            &&& !first_of_name(defenders, i) ==> h == 0
        } by {
            assert(next[i].name == defenders[i].name);
            assert(defenders[i].hits_taken + aimed_from(threats, defenders[i].name@, j) <= u32::MAX);
            if first_of_name(defenders, i) && name == defenders[i].name@ {
                if f < i {
                    assert(defenders[f].name@ == name);
                } else if f > i {
                    assert(defenders[i].name@ != name);
                }
                assert(f == i);
            }
            if !first_of_name(defenders, i) {
                let k = choose|k: int| 0 <= k < i && (#[trigger] defenders[k]).name@ == defenders[i].name@;
                if name == defenders[i].name@ {
                    assert(f <= k);
                }
            }
            if name != defenders[i].name@ && f < defenders.len() {
                assert(defenders[f].name@ == name);
            }
        }
    }
}

/// Each surviving threat rolls its own PKO: in the terminal impact phase the
/// first defender bearing a name takes at least one hit per threat aimed at
/// it whose PKO always succeeds, and at most one per threat aimed at it
/// whose PKO can succeed; a later defender of the same name takes none.
pub proof fn lemma_hits_follow_own_pko(
    defenders: Seq<RunDefender>,
    threats: Seq<IncomingThreat>,
    draws: Seq<u64>,
    start: int,
)
    requires
        forall|i: int|
            0 <= i < defenders.len() ==> #[trigger] defenders[i].hits_taken + aimed_count(
                threats,
                defenders[i].name@,
            ) <= u32::MAX,
    ensures
        forall|i: int|
            0 <= i < defenders.len() ==> {
                let h = (#[trigger] spec_impact(defenders, threats, draws, start)[i]).hits_taken
                    - defenders[i].hits_taken;
                &&& first_of_name(defenders, i) ==> certain_from(threats, defenders[i].name@, 0) <= h
                    <= possible_from(threats, defenders[i].name@, 0)
                &&& !first_of_name(defenders, i) ==> h == 0
            },
{
    assert forall|i: int| 0 <= i < defenders.len() implies #[trigger] defenders[i].hits_taken
        + aimed_from(threats, defenders[i].name@, 0) <= u32::MAX by {
        lemma_aimed_from_count(threats, defenders[i].name@, 0);
        assert(threats.take(0) =~= Seq::<IncomingThreat>::empty());
    }
    lemma_hits_follow_pko(defenders, threats, 0, draws, start);
}

} // verus!
