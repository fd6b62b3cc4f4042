//! The chart series of an interactive session's history.

use vstd::prelude::*;

use crate::engine::impact::{find_named, first_named};
use crate::engine::threats::launched_sum;
use crate::models::{ImpactEvent, InterceptionEvent, RunDefender, StepRecord, ThreatLaunch};

verus! {

/// The series the interactive view charts.
#[derive(Debug)]
pub struct ChartSeries {
    /// One name per defender of the initial snapshot.
    pub hp_names: Vec<String>,
    /// Per defender: its staying power initially and after each step.
    pub hp_series: Vec<Vec<u32>>,
    /// Per step: its 1-based number.
    pub mf_step: Vec<usize>,
    /// Per step: missiles launched.
    pub mf_incoming: Vec<u32>,
    /// Per step: missiles launched but not leaked (never below zero).
    pub mf_intercepted: Vec<u32>,
    /// Per step: missiles that leaked through.
    pub mf_survived: Vec<u32>,
    /// Per step: its 1-based number.
    pub int_step: Vec<usize>,
    /// Per step: interceptors fired.
    pub int_fired: Vec<u32>,
}

/// Missiles that leaked through in a step.
pub open spec fn leaked_sum(impacts: Seq<ImpactEvent>) -> int
    decreases impacts.len(),
{
    if impacts.len() == 0 {
        0
    } else {
        leaked_sum(impacts.drop_last()) + impacts.last().missiles_leaked
    }
}

/// Interceptors fired in a step.
pub open spec fn fired_sum(events: Seq<InterceptionEvent>) -> int
    decreases events.len(),
{
    if events.len() == 0 {
        0
    } else {
        fired_sum(events.drop_last()) + events.last().interceptors_fired
    }
}

/// A defender's staying power in a snapshot: that of the first defender with
/// its name, or zero if none.
pub open spec fn hp_in(snapshot: Seq<RunDefender>, name: Seq<char>) -> u32 {
    let k = first_named(snapshot, name, 0);
    if k < snapshot.len() {
        snapshot[k as int].staying_power
    } else {
        0
    }
}

/// Whether a step record's totals fit the chart's counters.
pub open spec fn record_fits(rec: StepRecord) -> bool {
    &&& launched_sum(rec.threat_launches@) <= u32::MAX
    &&& leaked_sum(rec.impacts@) <= u32::MAX
    &&& fired_sum(rec.interceptions@) <= u32::MAX
    &&& rec.step < usize::MAX
}

/// Whether every record of a history fits the chart's counters.
pub open spec fn history_fits(history: Seq<StepRecord>) -> bool {
    forall|k: int| 0 <= k < history.len() ==> record_fits(#[trigger] history[k])
}

/// The charts of a history, given the defenders' initial snapshot.
pub open spec fn series_match(
    series: ChartSeries,
    initial: Seq<RunDefender>,
    history: Seq<StepRecord>,
) -> bool {
    &&& series.hp_names@.len() == initial.len()
    &&& series.hp_series@.len() == initial.len()
    &&& forall|i: int|
        0 <= i < initial.len() ==> (#[trigger] series.hp_names@[i]) == initial[i].name
    &&& forall|i: int|
        0 <= i < initial.len() ==> (#[trigger] series.hp_series@[i])@ == seq![
            initial[i].staying_power,
        ] + Seq::new(history.len(), |k: int| hp_in(history[k].defender_snapshots@, initial[i].name@))
    &&& series.mf_step@ == Seq::new(history.len(), |k: int| (history[k].step + 1) as usize)
    &&& series.int_step@ == series.mf_step@
    &&& series.mf_incoming@ == Seq::new(
        history.len(),
        |k: int| launched_sum(history[k].threat_launches@) as u32,
    )
    &&& series.mf_survived@ == Seq::new(
        history.len(),
        |k: int| leaked_sum(history[k].impacts@) as u32,
    )
    &&& series.mf_intercepted@ == Seq::new(
        history.len(),
        |k: int|
            if launched_sum(history[k].threat_launches@) >= leaked_sum(history[k].impacts@) {
                (launched_sum(history[k].threat_launches@) - leaked_sum(history[k].impacts@)) as u32
            } else {
                0u32
            },
    )
    &&& series.int_fired@ == Seq::new(
        history.len(),
        |k: int| fired_sum(history[k].interceptions@) as u32,
    )
}

fn sum_launched(launches: &Vec<ThreatLaunch>) -> (n: u32)
    requires
        launched_sum(launches@) <= u32::MAX,
    ensures
        n == launched_sum(launches@),
{
    let mut n: u32 = 0;
    let mut i: usize = 0;
    while i < launches.len()
        invariant
            0 <= i <= launches.len(),
            launched_sum(launches@) <= u32::MAX,
            n == launched_sum(launches@.take(i as int)),
        decreases launches.len() - i,
    {
        proof {
            lemma_launched_prefix(launches@, i as int + 1);
        }
        assert(launches@.take(i + 1).drop_last() =~= launches@.take(i as int));
        n = n + launches[i].missiles_fired;
        i = i + 1;
    }
    assert(launches@.take(launches.len() as int) =~= launches@);
    n
}

proof fn lemma_launched_prefix(s: Seq<ThreatLaunch>, i: int)
    requires
        0 <= i <= s.len(),
    ensures
        0 <= launched_sum(s.take(i)) <= launched_sum(s),
    decreases s.len(),
{
    if s.len() > 0 {
        if i < s.len() {
            lemma_launched_prefix(s.drop_last(), i);
            assert(s.drop_last().take(i) =~= s.take(i));
        } else {
            assert(s.take(i) =~= s);
            lemma_launched_prefix(s.drop_last(), i - 1);
            assert(s.drop_last().take(i - 1) =~= s.drop_last());
        }
    }
}

fn sum_leaked(impacts: &Vec<ImpactEvent>) -> (n: u32)
    requires
        leaked_sum(impacts@) <= u32::MAX,
    ensures
        n == leaked_sum(impacts@),
{
    let mut n: u32 = 0;
    let mut i: usize = 0;
    while i < impacts.len()
        invariant
            0 <= i <= impacts.len(),
            leaked_sum(impacts@) <= u32::MAX,
            n == leaked_sum(impacts@.take(i as int)),
        decreases impacts.len() - i,
    {
        proof {
            lemma_leaked_prefix(impacts@, i as int + 1);
        }
        assert(impacts@.take(i + 1).drop_last() =~= impacts@.take(i as int));
        n = n + impacts[i].missiles_leaked;
        i = i + 1;
    }
    assert(impacts@.take(impacts.len() as int) =~= impacts@);
    n
}

proof fn lemma_leaked_prefix(s: Seq<ImpactEvent>, i: int)
    requires
        0 <= i <= s.len(),
    ensures
        0 <= leaked_sum(s.take(i)) <= leaked_sum(s),
    decreases s.len(),
{
    if s.len() > 0 {
        if i < s.len() {
            lemma_leaked_prefix(s.drop_last(), i);
            assert(s.drop_last().take(i) =~= s.take(i));
        } else {
            assert(s.take(i) =~= s);
            lemma_leaked_prefix(s.drop_last(), i - 1);
            assert(s.drop_last().take(i - 1) =~= s.drop_last());
        }
    }
}

fn sum_fired(events: &Vec<InterceptionEvent>) -> (n: u32)
    requires
        fired_sum(events@) <= u32::MAX,
    ensures
        n == fired_sum(events@),
{
    let mut n: u32 = 0;
    let mut i: usize = 0;
    while i < events.len()
        invariant
            0 <= i <= events.len(),
            fired_sum(events@) <= u32::MAX,
            n == fired_sum(events@.take(i as int)),
        decreases events.len() - i,
    {
        proof {
            lemma_fired_prefix(events@, i as int + 1);
        }
        assert(events@.take(i + 1).drop_last() =~= events@.take(i as int));
        n = n + events[i].interceptors_fired;
        i = i + 1;
    }
    assert(events@.take(events.len() as int) =~= events@);
    n
}

proof fn lemma_fired_prefix(s: Seq<InterceptionEvent>, i: int)
    requires
        0 <= i <= s.len(),
    ensures
        0 <= fired_sum(s.take(i)) <= fired_sum(s),
    decreases s.len(),
{
    if s.len() > 0 {
        if i < s.len() {
            lemma_fired_prefix(s.drop_last(), i);
            assert(s.drop_last().take(i) =~= s.take(i));
        } else {
            assert(s.take(i) =~= s);
            lemma_fired_prefix(s.drop_last(), i - 1);
            assert(s.drop_last().take(i - 1) =~= s.drop_last());
        }
    }
}

/// A defender's staying power in a snapshot (zero if it is not there).
fn hp_of(snapshot: &Vec<RunDefender>, name: &String) -> (hp: u32)
    ensures
        hp == hp_in(snapshot@, name@),
{
    let k = find_named(snapshot, name);
    if k < snapshot.len() {
        snapshot[k].staying_power
    } else {
        0
    }
}

/// Whether a history's totals fit the chart's counters.
pub fn fits_charts(history: &Vec<StepRecord>) -> (b: bool)
    ensures
        b == history_fits(history@),
{
    let mut k: usize = 0;
    while k < history.len()
        invariant
            0 <= k <= history.len(),
            forall|j: int| 0 <= j < k ==> record_fits(#[trigger] history@[j]),
        decreases history.len() - k,
    {
        let rec = &history[k];
        if rec.step == usize::MAX || !sum_fits_launched(&rec.threat_launches) || !sum_fits_leaked(
            &rec.impacts,
        ) || !sum_fits_fired(&rec.interceptions) {
            return false;
        }
        k = k + 1;
    }
    true
}

fn sum_fits_launched(launches: &Vec<ThreatLaunch>) -> (b: bool)
    ensures
        b == (launched_sum(launches@) <= u32::MAX),
{
    let mut n: u64 = 0;
    let mut i: usize = 0;
    while i < launches.len()
        invariant
            0 <= i <= launches.len(),
            n == launched_sum(launches@.take(i as int)),
            n <= u32::MAX,
        decreases launches.len() - i,
    {
        assert(launches@.take(i + 1).drop_last() =~= launches@.take(i as int));
        n = n + launches[i].missiles_fired as u64;
        i = i + 1;
        if n > u32::MAX as u64 {
            proof {
                lemma_launched_prefix(launches@, i as int);
            }
            return false;
        }
    }
    assert(launches@.take(launches.len() as int) =~= launches@);
    true
}

fn sum_fits_leaked(impacts: &Vec<ImpactEvent>) -> (b: bool)
    ensures
        b == (leaked_sum(impacts@) <= u32::MAX),
{
    let mut n: u64 = 0;
    let mut i: usize = 0;
    while i < impacts.len()
        invariant
            0 <= i <= impacts.len(),
            n == leaked_sum(impacts@.take(i as int)),
            n <= u32::MAX,
        decreases impacts.len() - i,
    {
        assert(impacts@.take(i + 1).drop_last() =~= impacts@.take(i as int));
        n = n + impacts[i].missiles_leaked as u64;
        i = i + 1;
        if n > u32::MAX as u64 {
            proof {
                lemma_leaked_prefix(impacts@, i as int);
            }
            return false;
        }
    }
    assert(impacts@.take(impacts.len() as int) =~= impacts@);
    true
}

fn sum_fits_fired(events: &Vec<InterceptionEvent>) -> (b: bool)
    ensures
        b == (fired_sum(events@) <= u32::MAX),
{
    let mut n: u64 = 0;
    let mut i: usize = 0;
    while i < events.len()
        invariant
            0 <= i <= events.len(),
            n == fired_sum(events@.take(i as int)),
            n <= u32::MAX,
        decreases events.len() - i,
    {
        assert(events@.take(i + 1).drop_last() =~= events@.take(i as int));
        n = n + events[i].interceptors_fired as u64;
        i = i + 1;
        if n > u32::MAX as u64 {
            proof {
                lemma_fired_prefix(events@, i as int);
            }
            return false;
        }
    }
    assert(events@.take(events.len() as int) =~= events@);
    true
}

/// The chart series of a session: each defender's staying power over time
/// (from its initial value, then as the first defender of its name in each
/// step's snapshot, zero if absent), and per step the missiles launched,
/// leaked through and intercepted (launched less leaked, never below zero),
/// and the interceptors fired.
pub fn chart_series(initial: &Vec<RunDefender>, history: &Vec<StepRecord>) -> (series: ChartSeries)
    requires
        history_fits(history@),
    ensures
        series_match(series, initial@, history@),
{
    let mut hp_names: Vec<String> = Vec::new();
    let mut hp_series: Vec<Vec<u32>> = Vec::new();
    let mut i: usize = 0;
    while i < initial.len()
        invariant
            0 <= i <= initial.len(),
            hp_names@.len() == i,
            hp_series@.len() == i,
            forall|j: int| 0 <= j < i ==> (#[trigger] hp_names@[j]) == initial@[j].name,
            forall|j: int|
                0 <= j < i ==> (#[trigger] hp_series@[j])@ == seq![initial@[j].staying_power]
                    + Seq::new(
                    history@.len(),
                    |k: int| hp_in(history@[k].defender_snapshots@, initial@[j].name@),
                ),
        decreases initial.len() - i,
    {
        let name = &initial[i].name;
        let mut series: Vec<u32> = Vec::new();
        series.push(initial[i].staying_power);
        let mut k: usize = 0;
        while k < history.len()
            invariant
                0 <= k <= history.len(),
                series@ == seq![initial@[i as int].staying_power] + Seq::new(
                    k as nat,
                    |m: int| hp_in(history@[m].defender_snapshots@, name@),
                ),
            decreases history.len() - k,
        {
            series.push(hp_of(&history[k].defender_snapshots, name));
            k = k + 1;
            assert(series@ =~= seq![initial@[i as int].staying_power] + Seq::new(
                k as nat,
                |m: int| hp_in(history@[m].defender_snapshots@, name@),
            ));
        }
        hp_names.push(name.clone());
        hp_series.push(series);
        i = i + 1;
    }
    let mut mf_step: Vec<usize> = Vec::new();
    let mut mf_incoming: Vec<u32> = Vec::new();
    let mut mf_intercepted: Vec<u32> = Vec::new();
    let mut mf_survived: Vec<u32> = Vec::new();
    let mut int_fired: Vec<u32> = Vec::new();
    let mut k: usize = 0;
    while k < history.len()
        invariant
            0 <= k <= history.len(),
            history_fits(history@),
            mf_step@ == Seq::new(k as nat, |m: int| (history@[m].step + 1) as usize),
            mf_incoming@ == Seq::new(
                k as nat,
                |m: int| launched_sum(history@[m].threat_launches@) as u32,
            ),
            mf_survived@ == Seq::new(k as nat, |m: int| leaked_sum(history@[m].impacts@) as u32),
            mf_intercepted@ == Seq::new(
                k as nat,
                |m: int|
                    if launched_sum(history@[m].threat_launches@) >= leaked_sum(
                        history@[m].impacts@,
                    ) {
                        (launched_sum(history@[m].threat_launches@) - leaked_sum(
                            history@[m].impacts@,
                        )) as u32
                    } else {
                        0u32
                    },
            ),
            int_fired@ == Seq::new(k as nat, |m: int| fired_sum(history@[m].interceptions@) as u32),
        decreases history.len() - k,
    {
        let rec = &history[k];
        assert(record_fits(history@[k as int]));
        let incoming = sum_launched(&rec.threat_launches);
        let survived = sum_leaked(&rec.impacts);
        let intercepted = incoming.saturating_sub(survived);
        let fired = sum_fired(&rec.interceptions);
        mf_step.push(rec.step + 1);
        mf_incoming.push(incoming);
        mf_intercepted.push(intercepted);
        mf_survived.push(survived);
        int_fired.push(fired);
        k = k + 1;
        assert(mf_step@ =~= Seq::new(k as nat, |m: int| (history@[m].step + 1) as usize));
        assert(mf_incoming@ =~= Seq::new(
            k as nat,
            |m: int| launched_sum(history@[m].threat_launches@) as u32,
        ));
        assert(mf_survived@ =~= Seq::new(
            k as nat,
            |m: int| leaked_sum(history@[m].impacts@) as u32,
        ));
        assert(mf_intercepted@ =~= Seq::new(
            k as nat,
            |m: int|
                if launched_sum(history@[m].threat_launches@) >= leaked_sum(history@[m].impacts@) {
                    (launched_sum(history@[m].threat_launches@) - leaked_sum(
                        history@[m].impacts@,
                    )) as u32
                } else {
                    0u32
                },
        ));
        assert(int_fired@ =~= Seq::new(
            k as nat,
            |m: int| fired_sum(history@[m].interceptions@) as u32,
        ));
    }
    let int_step = copy_steps(&mf_step);
    ChartSeries {
        hp_names,
        hp_series,
        mf_step,
        mf_incoming,
        mf_intercepted,
        mf_survived,
        int_step,
        int_fired,
    }
}

fn copy_steps(v: &Vec<usize>) -> (c: Vec<usize>)
    ensures
        c@ == v@,
{
    let mut c: Vec<usize> = Vec::new();
    let mut i: usize = 0;
    while i < v.len()
        invariant
            0 <= i <= v.len(),
            c@ == v@.take(i as int),
        decreases v.len() - i,
    {
        c.push(v[i]);
        i = i + 1;
        assert(c@ =~= v@.take(i as int));
    }
    assert(v@.take(v.len() as int) =~= v@);
    c
}

} // verus!
