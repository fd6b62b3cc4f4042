//! Scenario listings: what the dashboard shows of each scenario file.

use vstd::prelude::*;

verus! {

/// A parsed TOML value, as far as scenario listings read it: strings,
/// integers and tables; every other kind of value is `Other`.
#[derive(Debug)]
pub enum TomlValue {
    Str(String),
    Int(i64),
    Table(Vec<TomlEntry>),
    Other,
}

/// One key of a TOML table and its value.
#[derive(Debug)]
pub struct TomlEntry {
    pub key: String,
    pub value: TomlValue,
}

/// Lightweight metadata of a scenario file, for listing in the web UI
/// without full deserialisation.
#[derive(Debug)]
pub struct ScenarioInfo {
    pub name: String,
    pub display_name: String,
    pub description: String,
    pub execution_mode: String,
}

/// The value of the first entry with key `key` from index `i` on.
pub open spec fn entry_value(entries: Seq<TomlEntry>, key: Seq<char>, i: nat) -> Option<TomlValue>
    decreases entries.len() - i,
{
    if i >= entries.len() {
        None
    } else if entries[i as int].key@ == key {
        Some(entries[i as int].value)
    } else {
        entry_value(entries, key, i + 1)
    }
}

/// The value under `key` in a table (none for other values).
pub open spec fn spec_lookup(v: TomlValue, key: Seq<char>) -> Option<TomlValue> {
    match v {
        TomlValue::Table(entries) => entry_value(entries@, key, 0),
        _ => None,
    }
}

/// The text of a string value.
pub open spec fn spec_as_str(v: Option<TomlValue>) -> Option<Seq<char>> {
    match v {
        Some(TomlValue::Str(s)) => Some(s@),
        _ => None,
    }
}

/// The text of an optional string field, or the empty text.
pub open spec fn text_or_empty(v: Option<TomlValue>) -> Seq<char> {
    match spec_as_str(v) {
        Some(s) => s,
        None => Seq::empty(),
    }
}

/// The listing fields of a scenario document: the `[scenario]` table's
/// `name` string, and its `description` and `execution_mode` strings (empty
/// when absent or not strings); none without a `[scenario]` table with a
/// string `name`.
pub open spec fn spec_info_fields(document: TomlValue) -> Option<(Seq<char>, Seq<char>, Seq<char>)> {
    match spec_lookup(document, "scenario"@) {
        Some(sc) => match spec_as_str(spec_lookup(sc, "name"@)) {
            Some(display) => Some(
                (
                    display,
                    text_or_empty(spec_lookup(sc, "description"@)),
                    text_or_empty(spec_lookup(sc, "execution_mode"@)),
                ),
            ),
            None => None,
        },
        None => None,
    }
}

/// The value under `key` in `v`, if `v` is a table that has it.
fn lookup<'a>(v: &'a TomlValue, key: &String) -> (r: Option<&'a TomlValue>)
    ensures
        match r {
            Some(x) => spec_lookup(*v, key@) == Some(*x),
            None => spec_lookup(*v, key@) is None,
        },
{
    match v {
        TomlValue::Table(entries) => {
            let mut i: usize = 0;
            while i < entries.len()
                invariant
                    0 <= i <= entries.len(),
                    spec_lookup(*v, key@) == entry_value(entries@, key@, 0),
                    entry_value(entries@, key@, 0) == entry_value(entries@, key@, i as nat),
                decreases entries.len() - i,
            {
                if entries[i].key == *key {
                    return Some(&entries[i].value);
                }
                i = i + 1;
            }
            None
        },
        _ => None,
    }
}

/// The text of a string value, or the empty text.
fn text_of(v: Option<&TomlValue>) -> (s: String)
    ensures
        s@ == text_or_empty(
            match v {
                Some(x) => Some(*x),
                None => None,
            },
        ),
{
    match v {
        Some(TomlValue::Str(s)) => s.clone(),
        _ => String::new(),
    }
}

/// The listing entry of the scenario file named `name` (its stem) with the
/// parsed contents `document`: its display name is the `[scenario]` table's
/// `name` string, its description and execution mode that table's
/// `description` and `execution_mode` strings (empty when absent or not
/// strings).  None if there is no `[scenario]` table or it has no string
/// `name`.
pub fn scenario_info(name: String, document: &TomlValue) -> (info: Option<ScenarioInfo>)
    ensures
        info is Some <==> spec_info_fields(*document) is Some,
        info matches Some(i) ==> {
            &&& i.name == name
            &&& spec_info_fields(*document) == Some(
                (i.display_name@, i.description@, i.execution_mode@),
            )
        },
{
    proof {
        reveal_strlit("scenario");
        reveal_strlit("name");
        reveal_strlit("description");
        reveal_strlit("execution_mode");
    }
    let scenario = match lookup(document, &"scenario".to_string()) {
        Some(s) => s,
        None => return None,
    };
    let display_name = match lookup(scenario, &"name".to_string()) {
        Some(TomlValue::Str(s)) => s.clone(),
        _ => return None,
    };
    let description = text_of(lookup(scenario, &"description".to_string()));
    let execution_mode = text_of(lookup(scenario, &"execution_mode".to_string()));
    Some(ScenarioInfo { name, display_name, description, execution_mode })
}

/// The iteration count a scenario file proposes: the `[scenario]` table's
/// `iterations` integer truncated to 32 bits, or 1000 when absent.
pub fn default_iterations(document: &TomlValue) -> (n: u32)
    ensures
        n == match spec_lookup(*document, "scenario"@) {
            Some(sc) => match spec_lookup(sc, "iterations"@) {
                Some(TomlValue::Int(i)) => i as u32,
                _ => 1000,
            },
            None => 1000,
        },
{
    match lookup(document, &"scenario".to_string()) {
        Some(sc) => match lookup(sc, &"iterations".to_string()) {
            Some(TomlValue::Int(i)) => *i as u32,
            _ => 1000,
        },
        None => 1000,
    }
}

/// Whether `a` comes strictly before `b` in lexicographic order of
/// characters (the order of `String` comparison).
pub open spec fn name_lt(a: Seq<char>, b: Seq<char>) -> bool
    decreases a.len(),
{
    if a.len() == 0 {
        b.len() > 0
    } else if b.len() == 0 {
        false
    } else if a[0] != b[0] {
        (a[0] as u32) < (b[0] as u32)
    } else {
        name_lt(a.drop_first(), b.drop_first())
    }
}

/// No name comes before itself.
pub proof fn lemma_name_lt_irreflexive(a: Seq<char>)
    ensures
        !name_lt(a, a),
    decreases a.len(),
{
    if a.len() > 0 {
        lemma_name_lt_irreflexive(a.drop_first());
    }
}

/// Lexicographic order is transitive.
pub proof fn lemma_name_lt_transitive(a: Seq<char>, b: Seq<char>, c: Seq<char>)
    requires
        name_lt(a, b),
        name_lt(b, c),
    ensures
        name_lt(a, c),
    decreases a.len(),
{
    if a.len() > 0 && b.len() > 0 && c.len() > 0 && a[0] == b[0] && b[0] == c[0] {
        lemma_name_lt_transitive(a.drop_first(), b.drop_first(), c.drop_first());
    }
}

/// Whether `a`'s name comes strictly before `b`'s.
pub fn name_before(a: &String, b: &String) -> (lt: bool)
    ensures
        lt == name_lt(a@, b@),
{
    let la = a.as_str().unicode_len();
    let lb = b.as_str().unicode_len();
    let mut k: usize = 0;
    assert(a@.skip(0) =~= a@);
    assert(b@.skip(0) =~= b@);
    while k < la && k < lb
        invariant
            0 <= k <= la,
            k <= lb,
            la == a@.len(),
            lb == b@.len(),
            name_lt(a@, b@) == name_lt(a@.skip(k as int), b@.skip(k as int)),
        decreases la - k,
    {
        let ca = a.as_str().get_char(k);
        let cb = b.as_str().get_char(k);
        assert(a@.skip(k as int)[0] == ca);
        assert(b@.skip(k as int)[0] == cb);
        if ca != cb {
            return (ca as u32) < (cb as u32);
        }
        assert(a@.skip(k as int).drop_first() =~= a@.skip(k + 1));
        assert(b@.skip(k as int).drop_first() =~= b@.skip(k + 1));
        k = k + 1;
    }
    k < lb
}

/// The first index from `i` on whose name comes after `name`: where an
/// entry named `name` goes after every entry named no later.
pub open spec fn name_insertion_point(s: Seq<ScenarioInfo>, name: Seq<char>, i: nat) -> nat
    decreases s.len() - i,
{
    if i >= s.len() {
        s.len()
    } else if name_lt(name, s[i as int].name@) {
        i
    } else {
        name_insertion_point(s, name, i + 1)
    }
}

/// The listing in ascending name order; entries with equal names keep their
/// relative order.
pub open spec fn spec_sort_by_name(s: Seq<ScenarioInfo>) -> Seq<ScenarioInfo>
    decreases s.len(),
{
    if s.len() == 0 {
        s
    } else {
        let t = spec_sort_by_name(s.drop_last());
        t.insert(name_insertion_point(t, s.last().name@, 0) as int, s.last())
    }
}

/// Whether a listing is in ascending name order.
pub open spec fn sorted_by_name(s: Seq<ScenarioInfo>) -> bool {
    forall|i: int, j: int| 0 <= i < j < s.len() ==> !name_lt(s[j].name@, s[i].name@)
}

proof fn lemma_name_insertion_point(s: Seq<ScenarioInfo>, name: Seq<char>, i: nat)
    requires
        i <= s.len(),
        forall|k: int| 0 <= k < i ==> !name_lt(name, s[k].name@),
    ensures
        i <= name_insertion_point(s, name, i) <= s.len(),
        forall|k: int| 0 <= k < name_insertion_point(s, name, i) ==> !name_lt(name, s[k].name@),
        name_insertion_point(s, name, i) < s.len() ==> name_lt(
            name,
            s[name_insertion_point(s, name, i) as int].name@,
        ),
    decreases s.len() - i,
{
    if i < s.len() && !name_lt(name, s[i as int].name@) {
        lemma_name_insertion_point(s, name, i + 1);
    }
}

/// Sorting a listing by name yields the same entries in ascending name
/// order.
pub proof fn lemma_sort_by_name(s: Seq<ScenarioInfo>)
    ensures
        sorted_by_name(spec_sort_by_name(s)),
        spec_sort_by_name(s).to_multiset() == s.to_multiset(),
        spec_sort_by_name(s).len() == s.len(),
    decreases s.len(),
{
    if s.len() > 0 {
        let rest = s.drop_last();
        let x = s.last();
        lemma_sort_by_name(rest);
        let t = spec_sort_by_name(rest);
        let p = name_insertion_point(t, x.name@, 0);
        lemma_name_insertion_point(t, x.name@, 0);
        let u = t.insert(p as int, x);
        assert forall|i: int, j: int| 0 <= i < j < u.len() implies !name_lt(u[j].name@, u[i].name@) by {
            if j < p {
            } else if j == p {
            } else if i < p {
                assert(u[j] == t[j - 1]);
            } else if i == p {
                if j - 1 == p {
                    lemma_name_lt_irreflexive(t[p as int].name@);
                } else {
                    assert(!name_lt(t[j - 1].name@, t[p as int].name@));
                }
                if name_lt(t[j - 1].name@, x.name@) {
                    lemma_name_lt_transitive(t[j - 1].name@, x.name@, t[p as int].name@);
                    if j - 1 == p {
                        lemma_name_lt_irreflexive(t[p as int].name@);
                    }
                }
            } else {
                assert(u[i] == t[i - 1]);
                assert(u[j] == t[j - 1]);
            }
        }
        vstd::seq_lib::to_multiset_insert(t, p as int, x);
        vstd::seq_lib::to_multiset_build(rest, x);
        assert(s =~= rest.push(x));
    }
}

/// Sorts a listing by name, ascending (a stable sort).
pub fn sort_scenarios(scenarios: &mut Vec<ScenarioInfo>)
    ensures
        final(scenarios)@ == spec_sort_by_name(old(scenarios)@),
        sorted_by_name(final(scenarios)@),
        final(scenarios)@.to_multiset() == old(scenarios)@.to_multiset(),
{
    proof {
        lemma_sort_by_name(scenarios@);
    }
    let mut input: Vec<ScenarioInfo> = Vec::new();
    std::mem::swap(scenarios, &mut input);
    let ghost given = input@;
    let total_len = input.len();
    let mut i: usize = 0;
    while input.len() > 0
        invariant
            i + input@.len() == given.len(),
            given.len() == total_len,
            input@ == given.skip(i as int),
            scenarios@ == spec_sort_by_name(given.take(i as int)),
        decreases input.len(),
    {
        let x = input.remove(0);
        let mut p: usize = 0;
        while p < scenarios.len() && !name_before(&x.name, &scenarios[p].name)
            invariant
                0 <= p <= scenarios.len(),
                name_insertion_point(scenarios@, x.name@, 0) == name_insertion_point(
                    scenarios@,
                    x.name@,
                    p as nat,
                ),
            decreases scenarios.len() - p,
        {
            p = p + 1;
        }
        assert(given.take(i + 1).drop_last() =~= given.take(i as int));
        assert(given.take(i + 1).last() == x);
        scenarios.insert(p, x);
        i = i + 1;
        assert(input@ =~= given.skip(i as int));
    }
    assert(given.take(i as int) =~= given);
}

} // verus!
