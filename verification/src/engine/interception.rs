//! The interception phase: defenders, in order, engage each incoming threat
//! according to their doctrine.

use vstd::prelude::*;

use crate::draws::DrawSource;
use crate::engine::threats::{aimed_count, aimed_from, lemma_aimed_from_count};
use crate::models::{Chance, Doctrine, IncomingThreat, ROLL_SCALE, RunDefender, roll_succeeds};

verus! {

/// Whether `t` agrees with `prefix` on all of `prefix`'s positions.
pub open spec fn extends(t: Seq<u64>, prefix: Seq<u64>) -> bool {
    &&& prefix.len() <= t.len()
    &&& forall|k: int| 0 <= k < prefix.len() ==> #[trigger] t[k] == prefix[k]
}

/// Extending is transitive.
pub proof fn lemma_extends_trans(a: Seq<u64>, b: Seq<u64>, c: Seq<u64>)
    requires
        extends(a, b),
        extends(b, c),
    ensures
        extends(a, c),
{
    assert forall|k: int| 0 <= k < c.len() implies #[trigger] a[k] == c[k] by {
        assert(a[k] == b[k]);
    }
}

/// A sequence extends what it was before a push.
pub proof fn lemma_extends_push(s: Seq<u64>, w: u64)
    ensures
        extends(s.push(w), s),
        s.push(w)[s.len() as int] == w,
{
}

/// The state of an interception phase in progress: the defenders, the
/// interceptors each has fired this step, the threats each has destroyed,
/// the position of the next random word, and the threats that got through.
pub struct Engagement {
    pub defenders: Seq<RunDefender>,
    pub engaged: Seq<u32>,
    pub kills: Seq<u32>,
    pub pos: int,
    pub surviving: Seq<IncomingThreat>,
}

/// A defender can engage when it is not destroyed, has interceptors left
/// and has not used up its engagement capacity for this step.
pub open spec fn can_engage(d: RunDefender, engaged: u32) -> bool {
    d.staying_power > 0 && d.magazine_depth > 0 && engaged < d.max_engagement_capacity
}

pub open spec fn min_u32(a: u32, b: u32) -> u32 {
    if a <= b {
        a
    } else {
        b
    }
}

/// Interceptors a defender could still fire this step.
pub open spec fn available(d: RunDefender, engaged: u32) -> u32 {
    if engaged >= d.max_engagement_capacity {
        0
    } else {
        min_u32(d.magazine_depth, (d.max_engagement_capacity - engaged) as u32)
    }
}

/// The most interceptors a defender may fire at one threat under its
/// doctrine: Shoot-Look-Shoot fires one at a time, looking after each, for
/// as long as it has capacity and interceptors; Shoot-Shoot-Look commits a
/// salvo of two; Max Defense commits everything it has left.
pub open spec fn volley_size(d: RunDefender, engaged: u32) -> u32 {
    let avail = available(d, engaged);
    match d.doctrine {
        Doctrine::ShootLookShoot => avail,
        Doctrine::ShootShootLook => min_u32(2, avail),
        Doctrine::MaxDefense => avail,
    }
}

/// The defender after firing `n` interceptors.
pub open spec fn fired(d: RunDefender, n: u32) -> RunDefender {
    RunDefender {
        name: d.name,
        staying_power: d.staying_power,
        hits_taken: d.hits_taken,
        magazine_depth: (d.magazine_depth - n) as u32,
        max_engagement_capacity: d.max_engagement_capacity,
        pkd: d.pkd,
        doctrine: d.doctrine,
    }
}

/// Rolling up to `n` interceptors, each with the words from `pos` on,
/// stopping at the first hit: whether one hit, and the next position.
pub open spec fn volley(draws: Seq<u64>, pos: int, n: nat, c: Chance) -> (bool, int)
    decreases n,
{
    if n == 0 {
        (false, pos)
    } else if roll_succeeds(draws[pos], c) {
        (true, pos + 1)
    } else {
        volley(draws, pos + 1, (n - 1) as nat, c)
    }
}

/// The interceptors spent on a volley of `n` of which `rolls` were rolled:
/// under Shoot-Look-Shoot only those rolled (it looks before each shot),
/// under the salvo doctrines all `n`, committed before any outcome is known.
pub open spec fn interceptors_spent(doctrine: Doctrine, n: u32, rolls: int) -> u32 {
    match doctrine {
        Doctrine::ShootLookShoot => rolls as u32,
        _ => n,
    }
}

/// A threat aimed at `target` meets the defenders from index `i` on: each
/// defender of that name that can engage fires its volley; the first hit
/// stops the threat.
pub open spec fn engage_from(st: Engagement, i: int, draws: Seq<u64>, target: Seq<char>) -> (
    Engagement,
    bool,
)
    decreases st.defenders.len() - i,
{
    if i < 0 || i >= st.defenders.len() {
        (st, false)
    } else {
        let d = st.defenders[i];
        let e = st.engaged[i];
        if !can_engage(d, e) || d.name@ != target {
            engage_from(st, i + 1, draws, target)
        } else {
            let n = volley_size(d, e);
            let (hit, p) = volley(draws, st.pos, n as nat, d.pkd);
            let spent = interceptors_spent(d.doctrine, n, p - st.pos);
            let next = Engagement {
                defenders: st.defenders.update(i, fired(d, spent)),
                engaged: st.engaged.update(i, (e + spent) as u32),
                kills: if hit {
                    st.kills.update(i, (st.kills[i] + 1) as u32)
                } else {
                    st.kills
                },
                pos: p,
                surviving: st.surviving,
            };
            if hit {
                (next, true)
            } else {
                engage_from(next, i + 1, draws, target)
            }
        }
    }
}

/// The threats from index `j` on meet the defenders they are aimed at, in
/// turn; those that no defender stops are added to the surviving threats.
pub open spec fn intercept_from(
    st: Engagement,
    pool: Seq<IncomingThreat>,
    j: int,
    draws: Seq<u64>,
) -> Engagement
    decreases pool.len() - j,
{
    if j < 0 || j >= pool.len() {
        st
    } else {
        let (after, hit) = engage_from(st, 0, draws, pool[j].target_name@);
        let next = if hit {
            after
        } else {
            Engagement { surviving: after.surviving.push(pool[j]), ..after }
        };
        intercept_from(next, pool, j + 1, draws)
    }
}

/// The state an interception phase starts in, reading words from `start`.
pub open spec fn initial_engagement(defenders: Seq<RunDefender>, start: int) -> Engagement {
    Engagement {
        defenders,
        engaged: Seq::new(defenders.len(), |i: int| 0u32),
        kills: Seq::new(defenders.len(), |i: int| 0u32),
        pos: start,
        surviving: Seq::empty(),
    }
}

/// The whole interception phase, reading random words from `start` on.
pub open spec fn spec_interception(
    defenders: Seq<RunDefender>,
    pool: Seq<IncomingThreat>,
    draws: Seq<u64>,
    start: int,
) -> Engagement {
    intercept_from(initial_engagement(defenders, start), pool, 0, draws)
}

/// What an interception phase reports besides the defenders' new state.
pub struct Interception {
    /// The threats no defender stopped, in the order they came in.
    pub surviving: Vec<IncomingThreat>,
    /// For each defender, the threats it destroyed.
    pub kills: Vec<u32>,
}

/// The well-formedness of a state in progress: one engagement count and one
/// kill count per defender, kills never above interceptors fired, and
/// engagements within capacity.
pub open spec fn engagement_ok(st: Engagement) -> bool {
    &&& st.engaged.len() == st.defenders.len()
    &&& st.kills.len() == st.defenders.len()
    &&& forall|i: int|
        0 <= i < st.defenders.len() ==> #[trigger] st.kills[i] <= st.engaged[i]
            <= st.defenders[i].max_engagement_capacity
}

/// Rolls up to `n` interceptors with chance `c`, stopping at the first hit;
/// returns whether one hit and how many were rolled.
fn roll_volley<S: DrawSource>(draws: &mut S, n: u32, c: Chance) -> (res: (bool, u32))
    ensures
        extends(final(draws).drawn(), old(draws).drawn()),
        res.1 == final(draws).drawn().len() - old(draws).drawn().len(),
        res.1 <= n,
        forall|t: Seq<u64>|
            #![trigger volley(t, old(draws).drawn().len() as int, n as nat, c)]
            extends(t, final(draws).drawn()) ==> volley(
                t,
                old(draws).drawn().len() as int,
                n as nat,
                c,
            ) == (res.0, final(draws).drawn().len() as int),
{
    let ghost start = draws.drawn();
    let mut k: u32 = 0;
    while k < n
        invariant
            k <= n,
            start == old(draws).drawn(),
            extends(draws.drawn(), start),
            draws.drawn().len() == start.len() + k,
            forall|t: Seq<u64>|
                #![trigger volley(t, start.len() as int, n as nat, c)]
                extends(t, draws.drawn()) ==> volley(t, start.len() as int, n as nat, c) == volley(
                    t,
                    draws.drawn().len() as int,
                    (n - k) as nat,
                    c,
                ),
        decreases n - k,
    {
        let ghost before = draws.drawn();
        let w = draws.next_draw();
        proof {
            lemma_extends_push(before, w);
            lemma_extends_trans(draws.drawn(), before, start);
        }
        if c.succeeds(w) {
            assert forall|t: Seq<u64>|
                #![trigger volley(t, start.len() as int, n as nat, c)]
                extends(t, draws.drawn()) implies volley(t, start.len() as int, n as nat, c) == (
                true,
                draws.drawn().len() as int,
            ) by {
                lemma_extends_trans(t, draws.drawn(), before);
                assert(t[before.len() as int] == draws.drawn()[before.len() as int]);
                assert(volley(t, start.len() as int, n as nat, c) == volley(
                    t,
                    before.len() as int,
                    (n - k) as nat,
                    c,
                ));
            }
            return (true, k + 1);
        }
        assert forall|t: Seq<u64>|
            #![trigger volley(t, start.len() as int, n as nat, c)]
            extends(t, draws.drawn()) implies volley(t, start.len() as int, n as nat, c) == volley(
                t,
                draws.drawn().len() as int,
                (n - (k + 1)) as nat,
                c,
            ) by {
            lemma_extends_trans(t, draws.drawn(), before);
            assert(t[before.len() as int] == draws.drawn()[before.len() as int]);
            assert(volley(t, start.len() as int, n as nat, c) == volley(
                t,
                before.len() as int,
                (n - k) as nat,
                c,
            ));
        }
        k = k + 1;
    }
    (false, n)
}

/// Builds a state in progress from its parts.
pub open spec fn engagement(
    defenders: Seq<RunDefender>,
    engaged: Seq<u32>,
    kills: Seq<u32>,
    pos: int,
    surviving: Seq<IncomingThreat>,
) -> Engagement {
    Engagement { defenders, engaged, kills, pos, surviving }
}

/// The interceptors a defender commits against one threat.
fn volley_size_of(d: &RunDefender, engaged: u32) -> (n: u32)
    requires
        can_engage(*d, engaged),
    ensures
        n == volley_size(*d, engaged),
        1 <= n <= available(*d, engaged),
{
    let room = d.max_engagement_capacity - engaged;
    let avail = if d.magazine_depth <= room {
        d.magazine_depth
    } else {
        room
    };
    match d.doctrine {
        Doctrine::ShootLookShoot => avail,
        Doctrine::ShootShootLook => if avail <= 2 {
            avail
        } else {
            2
        },
        Doctrine::MaxDefense => avail,
    }
}

/// One threat aimed at `target` meets the defenders of that name in order;
/// returns whether one stopped it.
#[verifier::spinoff_prover]
fn engage_threat<S: DrawSource>(
    defenders: &mut Vec<RunDefender>,
    engaged: &mut Vec<u32>,
    kills: &mut Vec<u32>,
    draws: &mut S,
    target: &String,
    Ghost(surviving): Ghost<Seq<IncomingThreat>>,
) -> (hit: bool)
    requires
        engagement_ok(
            engagement(
                old(defenders)@,
                old(engaged)@,
                old(kills)@,
                old(draws).drawn().len() as int,
                surviving,
            ),
        ),
    ensures
        extends(final(draws).drawn(), old(draws).drawn()),
        engagement_ok(
            engagement(
                final(defenders)@,
                final(engaged)@,
                final(kills)@,
                final(draws).drawn().len() as int,
                surviving,
            ),
        ),
        forall|t: Seq<u64>|
            #![trigger engage_from(
                engagement(old(defenders)@, old(engaged)@, old(kills)@, old(draws).drawn().len() as int, surviving),
                0,
                t,
                target@,
            )]
            extends(t, final(draws).drawn()) ==> engage_from(
                engagement(
                    old(defenders)@,
                    old(engaged)@,
                    old(kills)@,
                    old(draws).drawn().len() as int,
                    surviving,
                ),
                0,
                t,
                target@,
            ) == (
                engagement(
                    final(defenders)@,
                    final(engaged)@,
                    final(kills)@,
                    final(draws).drawn().len() as int,
                    surviving,
                ),
                hit,
            ),
{
    let ghost s0 = engagement(
        defenders@,
        engaged@,
        kills@,
        draws.drawn().len() as int,
        surviving,
    );
    let ghost start = draws.drawn();
    let n = defenders.len();
    let mut i: usize = 0;
    while i < n
        invariant
            0 <= i <= n,
            n == defenders.len(),
            s0 == engagement(
                old(defenders)@,
                old(engaged)@,
                old(kills)@,
                old(draws).drawn().len() as int,
                surviving,
            ),
            start == old(draws).drawn(),
            extends(draws.drawn(), start),
            engagement_ok(
                engagement(
                    defenders@,
                    engaged@,
                    kills@,
                    draws.drawn().len() as int,
                    surviving,
                ),
            ),
            forall|t: Seq<u64>|
                #![trigger engage_from(s0, 0, t, target@)]
                extends(t, draws.drawn()) ==> engage_from(s0, 0, t, target@) == engage_from(
                    engagement(
                        defenders@,
                        engaged@,
                        kills@,
                        draws.drawn().len() as int,
                        surviving,
                    ),
                    i as int,
                    t,
                    target@,
                ),
        decreases n - i,
    {
        let ghost cur = engagement(
            defenders@,
            engaged@,
            kills@,
            draws.drawn().len() as int,
            surviving,
        );
        let ghost before = draws.drawn();
        let e = engaged[i];
        if defenders[i].staying_power == 0 || defenders[i].magazine_depth == 0 || e
            >= defenders[i].max_engagement_capacity || defenders[i].name != *target {
            assert forall|t: Seq<u64>|
                #![trigger engage_from(s0, 0, t, target@)]
                extends(t, draws.drawn()) implies engage_from(s0, 0, t, target@) == engage_from(
                    cur,
                    i + 1,
                    t,
                    target@,
                ) by {
                assert(engage_from(cur, i as int, t, target@) == engage_from(
                    cur,
                    i + 1,
                    t,
                    target@,
                ));
            }
            i = i + 1;
        } else {
            let ghost d = defenders@[i as int];
            let shots = volley_size_of(&defenders[i], e);
            let chance = defenders[i].pkd;
            let (hit, rolls) = roll_volley(draws, shots, chance);
            proof {
                lemma_extends_trans(draws.drawn(), before, start);
                lemma_volley_pos(draws.drawn(), before.len() as int, shots as nat, chance);
            }
            let spent = match defenders[i].doctrine {
                Doctrine::ShootLookShoot => rolls,
                _ => shots,
            };
            assert(spent == interceptors_spent(d.doctrine, shots, rolls as int));
            assert(1 <= spent <= shots);
            defenders[i].magazine_depth = defenders[i].magazine_depth - spent;
            engaged[i] = e + spent;
            assert(defenders@ == cur.defenders.update(i as int, fired(d, spent)));
            assert forall|k: int| 0 <= k < defenders@.len() implies #[trigger] kills@[k]
                <= engaged@[k] <= defenders@[k].max_engagement_capacity by {
                assert(cur.kills[k] <= cur.engaged[k]);
            }
            if hit {
                kills[i] = kills[i] + 1;
                let ghost next = engagement(
                    defenders@,
                    engaged@,
                    kills@,
                    draws.drawn().len() as int,
                    surviving,
                );
                assert forall|k: int| 0 <= k < next.defenders.len() implies #[trigger] next.kills[k]
                    <= next.engaged[k] <= next.defenders[k].max_engagement_capacity by {
                    if k != i {
                        assert(cur.kills[k] <= cur.engaged[k]);
                    }
                }
                assert forall|t: Seq<u64>|
                    #![trigger engage_from(s0, 0, t, target@)]
                    extends(t, draws.drawn()) implies engage_from(s0, 0, t, target@) == (
                        next,
                        true,
                    ) by {
                    lemma_extends_trans(t, draws.drawn(), before);
                    assert(volley(t, before.len() as int, shots as nat, chance) == (
                        true,
                        draws.drawn().len() as int,
                    ));
                    assert(engage_from(s0, 0, t, target@) == engage_from(
                        cur,
                        i as int,
                        t,
                        target@,
                    ));
                }
                return true;
            }
            let ghost next = engagement(
                defenders@,
                engaged@,
                kills@,
                draws.drawn().len() as int,
                surviving,
            );
            assert(engagement_ok(next));
            assert forall|t: Seq<u64>|
                #![trigger engage_from(s0, 0, t, target@)]
                extends(t, draws.drawn()) implies engage_from(s0, 0, t, target@) == engage_from(
                    next,
                    i + 1,
                    t,
                    target@,
                ) by {
                lemma_extends_trans(t, draws.drawn(), before);
                assert(volley(t, before.len() as int, shots as nat, chance) == (
                    false,
                    draws.drawn().len() as int,
                ));
                assert(engage_from(s0, 0, t, target@) == engage_from(
                    cur,
                    i as int,
                    t,
                    target@,
                ));
            }
            i = i + 1;
        }
    }
    false
}

/// The interception phase, reading words from `start` of `draws`, ends
/// with these defenders, kills, surviving threats, and next position.
pub open spec fn interception_matches(
    defenders: Seq<RunDefender>,
    pool: Seq<IncomingThreat>,
    draws: Seq<u64>,
    start: int,
    defenders_after: Seq<RunDefender>,
    kills: Seq<u32>,
    surviving: Seq<IncomingThreat>,
    end: int,
) -> bool {
    let outcome = spec_interception(defenders, pool, draws, start);
    &&& outcome.defenders == defenders_after
    &&& outcome.kills == kills
    &&& outcome.surviving == surviving
    &&& outcome.pos == end
}

/// A vector of `n` zeros.
fn zeros(n: usize) -> (v: Vec<u32>)
    ensures
        v@ == Seq::new(n as nat, |i: int| 0u32),
{
    let mut v: Vec<u32> = Vec::new();
    while v.len() < n
        invariant
            v.len() <= n,
            forall|k: int| 0 <= k < v.len() ==> v@[k] == 0u32,
        decreases n - v.len(),
    {
        v.push(0);
    }
    assert(v@ =~= Seq::new(n as nat, |i: int| 0u32));
    v
}

/// Attempt to intercept incoming threats.
///
/// Each threat is engaged by the defenders it is aimed at (those bearing its
/// target name), in their current order.  Such a defender, if it is not
/// destroyed and has interceptors left and engagement capacity to spare
/// this step, fires under its doctrine:
/// - Shoot-Look-Shoot fires one interceptor, looks, and fires another after
///   each miss while capacity and interceptors remain;
/// - Shoot-Shoot-Look commits a salvo of up to two interceptors;
/// - Max Defense commits all the interceptors it can still fire.
/// Interceptors are rolled against the defender's PkD until one hits; a hit
/// stops the threat, otherwise the next such defender engages.  Interceptors
/// fired (all of a committed salvo, only those shot under Shoot-Look-Shoot)
/// leave the magazines; threats no defender stops are returned in the order
/// they came in.
pub fn interception_phase<S: DrawSource>(
    defenders: &mut Vec<RunDefender>,
    threat_pool: &Vec<IncomingThreat>,
    draws: &mut S,
) -> (res: Interception)
    ensures
        extends(final(draws).drawn(), old(draws).drawn()),
        interception_matches(
            old(defenders)@,
            threat_pool@,
            final(draws).drawn(),
            old(draws).drawn().len() as int,
            final(defenders)@,
            res.kills@,
            res.surviving@,
            final(draws).drawn().len() as int,
        ),
        forall|t: Seq<u64>|
            #![trigger spec_interception(old(defenders)@, threat_pool@, t, old(draws).drawn().len() as int)]
            extends(t, final(draws).drawn()) ==> interception_matches(
                old(defenders)@,
                threat_pool@,
                t,
                old(draws).drawn().len() as int,
                final(defenders)@,
                res.kills@,
                res.surviving@,
                final(draws).drawn().len() as int,
            ),
        only_magazines_spent(final(defenders)@, old(defenders)@),
        res.kills@.len() == final(defenders)@.len(),
        forall|k: int|
            0 <= k < final(defenders)@.len() ==> res.kills@[k] <= #[trigger] old(
                defenders,
            )@[k].magazine_depth - final(defenders)@[k].magazine_depth <= old(
                defenders,
            )@[k].max_engagement_capacity,
        total(res.kills@) + res.surviving@.len() == threat_pool@.len(),
        forall|k: int|
            0 <= k < old(defenders)@.len() && !aimed_after(threat_pool@, 0, old(defenders)@[k].name@)
                ==> #[trigger] final(defenders)@[k] == old(defenders)@[k],
{
    let n = defenders.len();
    let mut engaged = zeros(n);
    let mut kills = zeros(n);
    let mut surviving: Vec<IncomingThreat> = Vec::new();
    let ghost start = draws.drawn();
    let ghost s0 = initial_engagement(defenders@, start.len() as int);
    assert(engagement_ok(s0));
    let mut j: usize = 0;
    while j < threat_pool.len()
        invariant
            0 <= j <= threat_pool.len(),
            start == old(draws).drawn(),
            s0 == initial_engagement(old(defenders)@, start.len() as int),
            extends(draws.drawn(), start),
            engagement_ok(
                engagement(
                    defenders@,
                    engaged@,
                    kills@,
                    draws.drawn().len() as int,
                    surviving@,
                ),
            ),
            forall|t: Seq<u64>|
                #![trigger intercept_from(s0, threat_pool@, 0, t)]
                extends(t, draws.drawn()) ==> intercept_from(s0, threat_pool@, 0, t)
                    == intercept_from(
                    engagement(
                        defenders@,
                        engaged@,
                        kills@,
                        draws.drawn().len() as int,
                        surviving@,
                    ),
                    threat_pool@,
                    j as int,
                    t,
                ),
        decreases threat_pool.len() - j,
    {
        let ghost cur = engagement(
            defenders@,
            engaged@,
            kills@,
            draws.drawn().len() as int,
            surviving@,
        );
        let ghost before = draws.drawn();
        let hit = engage_threat(
            defenders,
            &mut engaged,
            &mut kills,
            draws,
            &threat_pool[j].target_name,
            Ghost(surviving@),
        );
        let ghost after = engagement(
            defenders@,
            engaged@,
            kills@,
            draws.drawn().len() as int,
            cur.surviving,
        );
        if !hit {
            surviving.push(threat_pool[j].clone());
        }
        proof {
            lemma_extends_trans(draws.drawn(), before, start);
            assert(engagement_ok(after));
            assert forall|k: int| 0 <= k < defenders@.len() implies #[trigger] kills@[k]
                <= engaged@[k] <= defenders@[k].max_engagement_capacity by {
                assert(after.kills[k] <= after.engaged[k]);
            }
            assert forall|t: Seq<u64>|
                #![trigger intercept_from(s0, threat_pool@, 0, t)]
                extends(t, draws.drawn()) implies intercept_from(s0, threat_pool@, 0, t)
                    == intercept_from(
                    engagement(
                        defenders@,
                        engaged@,
                        kills@,
                        draws.drawn().len() as int,
                        surviving@,
                    ),
                    threat_pool@,
                    j + 1,
                    t,
                ) by {
                lemma_extends_trans(t, draws.drawn(), before);
                assert(engage_from(cur, 0, t, threat_pool@[j as int].target_name@) == (after, hit));
                assert(intercept_from(s0, threat_pool@, 0, t) == intercept_from(
                    cur,
                    threat_pool@,
                    j as int,
                    t,
                ));
            }
        }
        j = j + 1;
    }
    proof {
        assert(extends(draws.drawn(), draws.drawn()));
        lemma_interception_laws(old(defenders)@, threat_pool@, draws.drawn(), start.len() as int);
    }
    Interception { surviving, kills }
}

/// `after` is `before` with possibly fewer interceptors and nothing else
/// changed; a destroyed defender (no staying power left) keeps all of its
/// interceptors.
pub open spec fn only_magazine_spent(after: RunDefender, before: RunDefender) -> bool {
    &&& after.name == before.name
    &&& after.staying_power == before.staying_power
    &&& after.hits_taken == before.hits_taken
    &&& after.max_engagement_capacity == before.max_engagement_capacity
    &&& after.pkd == before.pkd
    &&& after.doctrine == before.doctrine
    &&& after.magazine_depth <= before.magazine_depth
    &&& before.staying_power == 0 ==> after.magazine_depth == before.magazine_depth
}

/// Defender-wise `only_magazine_spent`.
pub open spec fn only_magazines_spent(after: Seq<RunDefender>, before: Seq<RunDefender>) -> bool {
    &&& after.len() == before.len()
    &&& forall|k: int| 0 <= k < after.len() ==> only_magazine_spent(#[trigger] after[k], before[k])
}

/// The sum of a sequence of counts.
pub open spec fn total(s: Seq<u32>) -> int
    decreases s.len(),
{
    if s.len() == 0 {
        0
    } else {
        total(s.drop_last()) + s.last()
    }
}

/// Changing one count changes the sum by the difference.
pub proof fn lemma_total_update(s: Seq<u32>, i: int, v: u32)
    requires
        0 <= i < s.len(),
    ensures
        total(s.update(i, v)) == total(s) - s[i] + v,
    decreases s.len(),
{
    if i < s.len() - 1 {
        lemma_total_update(s.drop_last(), i, v);
        assert(s.update(i, v).drop_last() =~= s.drop_last().update(i, v));
    } else {
        assert(s.update(i, v).drop_last() =~= s.drop_last());
    }
}

/// The interceptors each defender fired between `before` and `after` are
/// exactly what it added to its engagement count.
pub open spec fn fired_as_engaged(after: Engagement, before: Engagement) -> bool {
    forall|k: int|
        0 <= k < before.defenders.len() ==> (#[trigger] after.engaged[k]) - before.engaged[k]
            == before.defenders[k].magazine_depth - after.defenders[k].magazine_depth
}

/// A sum of counts is never negative.
pub proof fn lemma_total_nonneg(s: Seq<u32>)
    ensures
        total(s) >= 0,
    decreases s.len(),
{
    if s.len() > 0 {
        lemma_total_nonneg(s.drop_last());
    }
}

/// A sequence of zeros sums to zero.
pub proof fn lemma_total_zeros(n: nat)
    ensures
        total(Seq::new(n, |i: int| 0u32)) == 0,
    decreases n,
{
    if n > 0 {
        lemma_total_zeros((n - 1) as nat);
        assert(Seq::new(n, |i: int| 0u32).drop_last() =~= Seq::new((n - 1) as nat, |i: int| 0u32));
    }
}

/// A volley moves forward by at least one word per interceptor rolled and at
/// most as many words as interceptors.
pub proof fn lemma_volley_pos(draws: Seq<u64>, pos: int, n: nat, c: Chance)
    ensures
        pos <= volley(draws, pos, n, c).1 <= pos + n,
        n > 0 ==> pos + 1 <= volley(draws, pos, n, c).1,
        volley(draws, pos, n, c).0 ==> n > 0,
    decreases n,
{
    if n > 0 && !roll_succeeds(draws[pos], c) {
        lemma_volley_pos(draws, pos + 1, (n - 1) as nat, c);
    }
}

/// One threat's engagement only spends interceptors, keeps the state
/// well formed, and adds one kill exactly when the threat is stopped.
pub proof fn lemma_engage_from(st: Engagement, i: int, draws: Seq<u64>, target: Seq<char>)
    requires
        engagement_ok(st),
        0 <= i,
    ensures
        only_magazines_spent(engage_from(st, i, draws, target).0.defenders, st.defenders),
        engagement_ok(engage_from(st, i, draws, target).0),
        engage_from(st, i, draws, target).0.surviving == st.surviving,
        engage_from(st, i, draws, target).0.pos >= st.pos,
        fired_as_engaged(engage_from(st, i, draws, target).0, st),
        forall|k: int|
            0 <= k < st.defenders.len() && st.defenders[k].name@ != target ==> (#[trigger] engage_from(
                st,
                i,
                draws,
                target,
            ).0.defenders[k]) == st.defenders[k],
        total(engage_from(st, i, draws, target).0.kills) == total(st.kills) + if engage_from(
            st,
            i,
            draws,
            target,
        ).1 {
            1int
        } else {
            0int
        },
    decreases st.defenders.len() - i,
{
    if i >= st.defenders.len() {
    } else {
        let d = st.defenders[i];
        let e = st.engaged[i];
        if !can_engage(d, e) || d.name@ != target {
            lemma_engage_from(st, i + 1, draws, target);
        } else {
            let n = volley_size(d, e);
            let (hit, p) = volley(draws, st.pos, n as nat, d.pkd);
            lemma_volley_pos(draws, st.pos, n as nat, d.pkd);
            let spent = interceptors_spent(d.doctrine, n, p - st.pos);
            assert(1 <= spent <= n);
            let next = Engagement {
                defenders: st.defenders.update(i, fired(d, spent)),
                engaged: st.engaged.update(i, (e + spent) as u32),
                kills: if hit {
                    st.kills.update(i, (st.kills[i] + 1) as u32)
                } else {
                    st.kills
                },
                pos: p,
                surviving: st.surviving,
            };
            assert(st.kills[i] <= st.engaged[i]);
            assert forall|k: int| 0 <= k < next.defenders.len() implies #[trigger] next.kills[k]
                <= next.engaged[k] <= next.defenders[k].max_engagement_capacity by {
                assert(st.kills[k] <= st.engaged[k]);
            }
            if hit {
                lemma_total_update(st.kills, i, (st.kills[i] + 1) as u32);
            } else {
                lemma_engage_from(next, i + 1, draws, target);
                let r = engage_from(next, i + 1, draws, target).0;
                assert forall|k: int| 0 <= k < st.defenders.len() implies (#[trigger] r.engaged[k])
                    - st.engaged[k] == st.defenders[k].magazine_depth - r.defenders[k].magazine_depth by {
                    assert(r.engaged[k] - next.engaged[k] == next.defenders[k].magazine_depth
                        - r.defenders[k].magazine_depth);
                }
            }
        }
    }
}

/// The interception phase from threat `j` on only spends interceptors, and
/// every threat is either stopped (one kill) or survives.
pub proof fn lemma_intercept_from(
    st: Engagement,
    pool: Seq<IncomingThreat>,
    j: int,
    draws: Seq<u64>,
)
    requires
        engagement_ok(st),
        0 <= j <= pool.len(),
    ensures
        only_magazines_spent(intercept_from(st, pool, j, draws).defenders, st.defenders),
        engagement_ok(intercept_from(st, pool, j, draws)),
        intercept_from(st, pool, j, draws).pos >= st.pos,
        fired_as_engaged(intercept_from(st, pool, j, draws), st),
        total(intercept_from(st, pool, j, draws).kills) + intercept_from(
            st,
            pool,
            j,
            draws,
        ).surviving.len() == total(st.kills) + st.surviving.len() + (pool.len() - j),
        forall|k: int|
            0 <= k < st.defenders.len() && !aimed_after(pool, j, st.defenders[k].name@) ==> (
            #[trigger] intercept_from(st, pool, j, draws).defenders[k]) == st.defenders[k],
        forall|name: Seq<char>|
            #[trigger] aimed_count(intercept_from(st, pool, j, draws).surviving, name) <= aimed_count(
                st.surviving,
                name,
            ) + aimed_from(pool, name, j),
    decreases pool.len() - j,
{
    if j < pool.len() {
        let (after, hit) = engage_from(st, 0, draws, pool[j].target_name@);
        lemma_engage_from(st, 0, draws, pool[j].target_name@);
        let next = if hit {
            after
        } else {
            Engagement { surviving: after.surviving.push(pool[j]), ..after }
        };
        assert(engagement_ok(next));
        lemma_intercept_from(next, pool, j + 1, draws);
        let r = intercept_from(next, pool, j + 1, draws);
        assert forall|k: int| 0 <= k < st.defenders.len() implies (#[trigger] r.engaged[k])
            - st.engaged[k] == st.defenders[k].magazine_depth - r.defenders[k].magazine_depth by {
            assert(r.engaged[k] - next.engaged[k] == next.defenders[k].magazine_depth
                - r.defenders[k].magazine_depth);
        }
        assert forall|k: int|
            0 <= k < st.defenders.len() && !aimed_after(pool, j, st.defenders[k].name@) implies (
            #[trigger] r.defenders[k]) == st.defenders[k] by {
            assert(pool[j].target_name@ != st.defenders[k].name@);
            assert(next.defenders[k] == st.defenders[k]);
            if aimed_after(pool, j + 1, next.defenders[k].name@) {
                let jj = choose|jj: int|
                    j + 1 <= jj < pool.len() && #[trigger] pool[jj].target_name@
                        == next.defenders[k].name@;
                assert(j <= jj < pool.len() && pool[jj].target_name@ == st.defenders[k].name@);
            }
        }
        assert forall|name: Seq<char>|
            #[trigger] aimed_count(r.surviving, name) <= aimed_count(st.surviving, name) + aimed_from(
                pool,
                name,
                j,
            ) by {
            assert(aimed_count(r.surviving, name) <= aimed_count(next.surviving, name) + aimed_from(
                pool,
                name,
                j + 1,
            ));
            if !hit {
                assert(after.surviving.push(pool[j]).drop_last() =~= after.surviving);
            }
        }
    }
}

/// No threat of `pool` is aimed at `name` exactly when counting them gives
/// zero.
pub proof fn lemma_aimed_after_count(pool: Seq<IncomingThreat>, name: Seq<char>)
    ensures
        aimed_after(pool, 0, name) <==> aimed_count(pool, name) > 0,
    decreases pool.len(),
{
    if pool.len() > 0 {
        let rest = pool.drop_last();
        lemma_aimed_after_count(rest, name);
        if aimed_after(rest, 0, name) {
            let jj = choose|jj: int| 0 <= jj < rest.len() && #[trigger] rest[jj].target_name@ == name;
            assert(pool[jj].target_name@ == name);
        }
        if aimed_after(pool, 0, name) && pool.last().target_name@ != name {
            let jj = choose|jj: int| 0 <= jj < pool.len() && #[trigger] pool[jj].target_name@ == name;
            assert(rest[jj].target_name@ == name);
        }
        if pool.last().target_name@ == name {
            assert(pool[pool.len() - 1].target_name@ == name);
        }
    }
}

/// Whether some threat of `pool` from index `j` on is aimed at `name`.
pub open spec fn aimed_after(pool: Seq<IncomingThreat>, j: int, name: Seq<char>) -> bool {
    exists|jj: int| j <= jj < pool.len() && #[trigger] pool[jj].target_name@ == name
}

/// Laws of the interception phase: it only spends interceptors (names,
/// staying power, hits, capacity, PkD and doctrine are kept, magazines
/// never grow); no defender fires more interceptors than its engagement
/// capacity, or destroys more threats than it fired interceptors; every
/// threat is either destroyed by exactly one defender or survives; and a
/// defender engages only threats aimed at it, so one that no threat is
/// aimed at is left exactly as it was.
pub proof fn lemma_interception_laws(
    defenders: Seq<RunDefender>,
    pool: Seq<IncomingThreat>,
    draws: Seq<u64>,
    start: int,
)
    ensures
        only_magazines_spent(spec_interception(defenders, pool, draws, start).defenders, defenders),
        engagement_ok(spec_interception(defenders, pool, draws, start)),
        forall|k: int|
            0 <= k < defenders.len() ==> #[trigger] defenders[k].magazine_depth - spec_interception(
                defenders,
                pool,
                draws,
                start,
            ).defenders[k].magazine_depth == spec_interception(
                defenders,
                pool,
                draws,
                start,
            ).engaged[k],
        forall|k: int|
            0 <= k < defenders.len() ==> spec_interception(defenders, pool, draws, start).kills[k]
                <= #[trigger] defenders[k].magazine_depth - spec_interception(
                defenders,
                pool,
                draws,
                start,
            ).defenders[k].magazine_depth <= defenders[k].max_engagement_capacity,
        spec_interception(defenders, pool, draws, start).pos >= start,
        total(spec_interception(defenders, pool, draws, start).kills) + spec_interception(
            defenders,
            pool,
            draws,
            start,
        ).surviving.len() == pool.len(),
        forall|k: int|
            0 <= k < defenders.len() && !aimed_after(pool, 0, defenders[k].name@) ==> (
            #[trigger] spec_interception(defenders, pool, draws, start).defenders[k])
                == defenders[k],
        forall|name: Seq<char>|
            #[trigger] aimed_count(spec_interception(defenders, pool, draws, start).surviving, name)
                <= aimed_count(pool, name),
{
    lemma_total_zeros(defenders.len());
    let s0 = initial_engagement(defenders, start);
    lemma_intercept_from(s0, pool, 0, draws);
    assert forall|name: Seq<char>|
        #[trigger] aimed_count(spec_interception(defenders, pool, draws, start).surviving, name)
            <= aimed_count(pool, name) by {
        lemma_aimed_from_count(pool, name, 0);
        assert(pool.take(0) =~= Seq::<IncomingThreat>::empty());
    }
    let r = spec_interception(defenders, pool, draws, start);
    assert forall|k: int| 0 <= k < defenders.len() implies #[trigger] defenders[k].magazine_depth
        - r.defenders[k].magazine_depth == r.engaged[k] by {
        assert(r.engaged[k] - s0.engaged[k] == s0.defenders[k].magazine_depth
            - r.defenders[k].magazine_depth);
    }
    assert forall|k: int| 0 <= k < defenders.len() implies r.kills[k]
        <= #[trigger] defenders[k].magazine_depth - r.defenders[k].magazine_depth
        <= defenders[k].max_engagement_capacity by {
        assert(defenders[k].magazine_depth - r.defenders[k].magazine_depth == r.engaged[k]);
        assert(only_magazine_spent(r.defenders[k], defenders[k]));
    }
}

/// A chance whose bound is zero never succeeds; one whose bound reaches the
/// roll scale always does.
pub proof fn lemma_roll_extremes(w: u64, c: Chance)
    ensures
        c.bound == 0 ==> !roll_succeeds(w, c),
        c.bound >= ROLL_SCALE ==> roll_succeeds(w, c),
{
    assert(w / 2048 < 9007199254740992) by (nonlinear_arith)
        requires
            w <= 18446744073709551615,
    ;
}

/// A volley against a zero-bound chance never hits.
proof fn lemma_volley_zero(draws: Seq<u64>, pos: int, n: nat, c: Chance)
    requires
        c.bound == 0,
    ensures
        !volley(draws, pos, n, c).0,
    decreases n,
{
    if n > 0 {
        lemma_roll_extremes(draws[pos], c);
        lemma_volley_zero(draws, pos + 1, (n - 1) as nat, c);
    }
}

/// Whether each defender's kills between `st` and `r` are what its own PkD
/// allows: none for a defender whose PkD never succeeds, and one per
/// interceptor fired for a Shoot-Look-Shoot defender whose PkD always does.
pub open spec fn kills_follow_pkd(r: Engagement, st: Engagement) -> bool {
    forall|k: int|
        0 <= k < st.defenders.len() ==> {
            &&& st.defenders[k].pkd.bound == 0 ==> (#[trigger] r.kills[k]) == st.kills[k]
            &&& (st.defenders[k].doctrine == Doctrine::ShootLookShoot && st.defenders[k].pkd.bound
                >= ROLL_SCALE) ==> r.kills[k] - st.kills[k] == st.defenders[k].magazine_depth
                - r.defenders[k].magazine_depth
        }
}

/// One threat's engagement credits kills according to each defender's own
/// PkD.
proof fn lemma_engage_kills(st: Engagement, i: int, draws: Seq<u64>, target: Seq<char>)
    requires
        engagement_ok(st),
        0 <= i,
    ensures
        kills_follow_pkd(engage_from(st, i, draws, target).0, st),
    decreases st.defenders.len() - i,
{
    lemma_engage_from(st, i, draws, target);
    if i < st.defenders.len() {
        let d = st.defenders[i];
        let e = st.engaged[i];
        if !can_engage(d, e) || d.name@ != target {
            lemma_engage_kills(st, i + 1, draws, target);
        } else {
            let n = volley_size(d, e);
            let (hit, p) = volley(draws, st.pos, n as nat, d.pkd);
            lemma_volley_pos(draws, st.pos, n as nat, d.pkd);
            let spent = interceptors_spent(d.doctrine, n, p - st.pos);
            let next = Engagement {
                defenders: st.defenders.update(i, fired(d, spent)),
                engaged: st.engaged.update(i, (e + spent) as u32),
                kills: if hit {
                    st.kills.update(i, (st.kills[i] + 1) as u32)
                } else {
                    st.kills
                },
                pos: p,
                surviving: st.surviving,
            };
            if d.pkd.bound == 0 {
                lemma_volley_zero(draws, st.pos, n as nat, d.pkd);
            }
            if d.pkd.bound >= ROLL_SCALE {
                lemma_roll_extremes(draws[st.pos], d.pkd);
            }
            assert(st.kills[i] <= st.engaged[i]);
            if !hit {
                assert forall|k: int| 0 <= k < next.defenders.len() implies #[trigger] next.kills[k]
                    <= next.engaged[k] <= next.defenders[k].max_engagement_capacity by {
                    assert(st.kills[k] <= st.engaged[k]);
                }
                lemma_engage_kills(next, i + 1, draws, target);
                lemma_engage_from(next, i + 1, draws, target);
                let r = engage_from(next, i + 1, draws, target).0;
                assert forall|k: int| 0 <= k < st.defenders.len() implies {
                    &&& st.defenders[k].pkd.bound == 0 ==> (#[trigger] r.kills[k]) == st.kills[k]
                    &&& (st.defenders[k].doctrine == Doctrine::ShootLookShoot
                        && st.defenders[k].pkd.bound >= ROLL_SCALE) ==> r.kills[k] - st.kills[k]
                        == st.defenders[k].magazine_depth - r.defenders[k].magazine_depth
                } by {
                    assert(next.defenders[k].pkd == st.defenders[k].pkd);
                    assert(next.defenders[k].doctrine == st.defenders[k].doctrine);
                    assert(only_magazine_spent(r.defenders[k], next.defenders[k]));
                }
            }
        }
    }
}

/// The threats from `j` on are engaged with kills credited according to
/// each defender's own PkD.
proof fn lemma_intercept_kills(st: Engagement, pool: Seq<IncomingThreat>, j: int, draws: Seq<u64>)
    requires
        engagement_ok(st),
        0 <= j <= pool.len(),
    ensures
        kills_follow_pkd(intercept_from(st, pool, j, draws), st),
    decreases pool.len() - j,
{
    if j < pool.len() {
        let (after, hit) = engage_from(st, 0, draws, pool[j].target_name@);
        lemma_engage_from(st, 0, draws, pool[j].target_name@);
        lemma_engage_kills(st, 0, draws, pool[j].target_name@);
        let next = if hit {
            after
        } else {
            Engagement { surviving: after.surviving.push(pool[j]), ..after }
        };
        lemma_intercept_kills(next, pool, j + 1, draws);
        lemma_intercept_from(next, pool, j + 1, draws);
        let r = intercept_from(next, pool, j + 1, draws);
        assert forall|k: int| 0 <= k < st.defenders.len() implies {
            &&& st.defenders[k].pkd.bound == 0 ==> (#[trigger] r.kills[k]) == st.kills[k]
            &&& (st.defenders[k].doctrine == Doctrine::ShootLookShoot && st.defenders[k].pkd.bound
                >= ROLL_SCALE) ==> r.kills[k] - st.kills[k] == st.defenders[k].magazine_depth
                - r.defenders[k].magazine_depth
        } by {
            assert(only_magazine_spent(next.defenders[k], st.defenders[k]));
        }
    }
}

/// Each defender rolls its interceptors against its own PkD: in the
/// interception phase, a defender whose PkD never succeeds destroys no
/// threat, whatever the other defenders' chances; and a Shoot-Look-Shoot
/// defender whose PkD always succeeds destroys one threat per interceptor it
/// fires.
pub proof fn lemma_kills_follow_own_pkd(
    defenders: Seq<RunDefender>,
    pool: Seq<IncomingThreat>,
    draws: Seq<u64>,
    start: int,
)
    ensures
        forall|k: int|
            0 <= k < defenders.len() && defenders[k].pkd.bound == 0 ==> (#[trigger] spec_interception(
                defenders,
                pool,
                draws,
                start,
            ).kills[k]) == 0,
        forall|k: int|
            0 <= k < defenders.len() && defenders[k].doctrine == Doctrine::ShootLookShoot
                && defenders[k].pkd.bound >= ROLL_SCALE ==> (#[trigger] spec_interception(
                defenders,
                pool,
                draws,
                start,
            ).kills[k]) == defenders[k].magazine_depth - spec_interception(
                defenders,
                pool,
                draws,
                start,
            ).defenders[k].magazine_depth,
{
    let s0 = initial_engagement(defenders, start);
    lemma_intercept_kills(s0, pool, 0, draws);
}

} // verus!
