//! Ordering the defenders by their resolved PkD, best shooter first.

use vstd::prelude::*;

use crate::models::RunDefender;

verus! {

/// The first index from `i` on whose rank is below `rank` (or the length):
/// where an element of rank `rank` goes after every element ranked at least
/// as high.
pub open spec fn insertion_point(s: Seq<RunDefender>, rank: u64, i: nat) -> nat
    decreases s.len() - i,
{
    if i >= s.len() {
        s.len()
    } else if s[i as int].pkd.rank < rank {
        i
    } else {
        insertion_point(s, rank, i + 1)
    }
}

/// `x` inserted into `s` after every element ranked at least as high.
pub open spec fn insert_by_pkd(s: Seq<RunDefender>, x: RunDefender) -> Seq<RunDefender> {
    s.insert(insertion_point(s, x.pkd.rank, 0) as int, x)
}

/// The defenders in descending PkD order; defenders of equal PkD keep their
/// relative order.
pub open spec fn spec_sort_by_pkd(s: Seq<RunDefender>) -> Seq<RunDefender>
    decreases s.len(),
{
    if s.len() == 0 {
        s
    } else {
        insert_by_pkd(spec_sort_by_pkd(s.drop_last()), s.last())
    }
}

/// Whether `s` is in descending PkD order.
pub open spec fn sorted_by_pkd(s: Seq<RunDefender>) -> bool {
    forall|i: int, j: int| 0 <= i < j < s.len() ==> s[i].pkd.rank >= s[j].pkd.rank
}

/// Sorts the defenders by PkD, highest first (a stable sort).
pub fn sort_by_pkd(defenders: &mut Vec<RunDefender>)
    ensures
        final(defenders)@ == spec_sort_by_pkd(old(defenders)@),
        sorted_by_pkd(final(defenders)@),
        final(defenders)@.to_multiset() == old(defenders)@.to_multiset(),
        forall|r: u64| #[trigger] final(defenders)@.filter(ranked(r)) == old(defenders)@.filter(ranked(r)),
{
    proof {
        lemma_sort_by_pkd(defenders@);
    }
    let mut input: Vec<RunDefender> = Vec::new();
    std::mem::swap(defenders, &mut input);
    let mut i: usize = 0;
    while i < input.len()
        invariant
            0 <= i <= input.len(),
            input@ == old(defenders)@,
            defenders@ == spec_sort_by_pkd(input@.take(i as int)),
        decreases input.len() - i,
    {
        let x = input[i].clone();
        let rank = x.pkd.rank;
        let mut p: usize = 0;
        while p < defenders.len() && defenders[p].pkd.rank >= rank
            invariant
                0 <= p <= defenders.len(),
                insertion_point(defenders@, rank, 0) == insertion_point(defenders@, rank, p as nat),
            decreases defenders.len() - p,
        {
            p = p + 1;
        }
        assert(input@.take(i + 1).drop_last() =~= input@.take(i as int));
        defenders.insert(p, x);
        i = i + 1;
    }
    assert(input@.take(input.len() as int) =~= input@);
}

/// The predicate "has PkD rank `r`".
pub open spec fn ranked(r: u64) -> spec_fn(RunDefender) -> bool {
    |d: RunDefender| d.pkd.rank == r
}

/// Where an element of rank `r` goes in a sorted sequence: every element
/// before it is ranked at least `r`, the one at it (if any) below `r`.
pub proof fn lemma_insertion_point(s: Seq<RunDefender>, r: u64, i: nat)
    requires
        i <= s.len(),
        forall|k: int| 0 <= k < i ==> s[k].pkd.rank >= r,
    ensures
        i <= insertion_point(s, r, i) <= s.len(),
        forall|k: int| 0 <= k < insertion_point(s, r, i) ==> s[k].pkd.rank >= r,
        insertion_point(s, r, i) < s.len() ==> s[insertion_point(s, r, i) as int].pkd.rank < r,
    decreases s.len() - i,
{
    if i < s.len() && s[i as int].pkd.rank >= r {
        lemma_insertion_point(s, r, i + 1);
    }
}

/// Inserting at the insertion point keeps a sorted sequence sorted, adds the
/// element to its multiset, and appends it to the elements of its own rank.
proof fn lemma_insert_by_pkd(t: Seq<RunDefender>, x: RunDefender)
    requires
        sorted_by_pkd(t),
    ensures
        sorted_by_pkd(insert_by_pkd(t, x)),
        insert_by_pkd(t, x).to_multiset() == t.to_multiset().insert(x),
        forall|r: u64|
            #[trigger] insert_by_pkd(t, x).filter(ranked(r)) == if x.pkd.rank == r {
                t.filter(ranked(r)).push(x)
            } else {
                t.filter(ranked(r))
            },
{
    let p = insertion_point(t, x.pkd.rank, 0);
    lemma_insertion_point(t, x.pkd.rank, 0);
    let u = insert_by_pkd(t, x);
    assert forall|i: int, j: int| 0 <= i < j < u.len() implies u[i].pkd.rank >= u[j].pkd.rank by {
        if j < p {
        } else if j == p {
        } else if i < p {
            assert(u[j] == t[j - 1]);
            assert(t[i].pkd.rank >= t[j - 1].pkd.rank);
        } else if i == p {
            assert(t[p as int].pkd.rank >= t[j - 1].pkd.rank);
        } else {
            assert(t[i - 1].pkd.rank >= t[j - 1].pkd.rank);
        }
    }
    vstd::seq_lib::to_multiset_insert(t, p as int, x);
    let a = t.subrange(0, p as int);
    let b = t.subrange(p as int, t.len() as int);
    assert(t =~= a + b);
    assert(u =~= a + seq![x] + b);
    assert forall|r: u64| #[trigger] u.filter(ranked(r)) == if x.pkd.rank == r {
        t.filter(ranked(r)).push(x)
    } else {
        t.filter(ranked(r))
    } by {
        let f = ranked(r);
        Seq::filter_distributes_over_add(a + seq![x], b, f);
        Seq::filter_distributes_over_add(a, seq![x], f);
        Seq::filter_distributes_over_add(a, b, f);
        if x.pkd.rank == r {
            assert forall|k: int| 0 <= k < b.len() implies !f(b[k]) by {
                assert(t[p as int].pkd.rank >= t[p + k].pkd.rank);
            }
            b.lemma_all_neg_filter_empty(f);
            assert(seq![x].filter(f) =~= seq![x]) by {
                reveal_with_fuel(Seq::filter, 2);
            }
            assert(t.filter(f) =~= a.filter(f));
        } else {
            assert(seq![x].filter(f) =~= Seq::<RunDefender>::empty()) by {
                reveal_with_fuel(Seq::filter, 2);
            }
        }
    }
}

/// Sorting by PkD yields the same defenders, in descending PkD order, with
/// the defenders of each PkD in the relative order they were given in (a stable
/// sort).
pub proof fn lemma_sort_by_pkd(s: Seq<RunDefender>)
    ensures
        sorted_by_pkd(spec_sort_by_pkd(s)),
        spec_sort_by_pkd(s).to_multiset() == s.to_multiset(),
        spec_sort_by_pkd(s).len() == s.len(),
        forall|r: u64| #[trigger] spec_sort_by_pkd(s).filter(ranked(r)) == s.filter(ranked(r)),
    decreases s.len(),
{
    if s.len() > 0 {
        let rest = s.drop_last();
        lemma_sort_by_pkd(rest);
        lemma_insert_by_pkd(spec_sort_by_pkd(rest), s.last());
        assert(s =~= rest.push(s.last()));
        vstd::seq_lib::to_multiset_build(rest, s.last());
        assert forall|r: u64| #[trigger] spec_sort_by_pkd(s).filter(ranked(r)) == s.filter(ranked(r)) by {
            rest.lemma_filter_push(s.last(), ranked(r));
            assert(spec_sort_by_pkd(s).filter(ranked(r)) == spec_sort_by_pkd(rest).filter(ranked(r)).push(s.last())
                || spec_sort_by_pkd(s).filter(ranked(r)) == spec_sort_by_pkd(rest).filter(ranked(r)));
        }
        s.to_multiset_ensures();
        spec_sort_by_pkd(s).to_multiset_ensures();
    }
}

/// The names of a sequence of defenders, in order.
pub open spec fn names_of(s: Seq<RunDefender>) -> Seq<Seq<char>> {
    s.map_values(|d: RunDefender| d.name@)
}

/// Sorting by PkD permutes the defenders' names.
pub proof fn lemma_sort_names(s: Seq<RunDefender>)
    ensures
        names_of(spec_sort_by_pkd(s)).to_multiset() == names_of(s).to_multiset(),
    decreases s.len(),
{
    if s.len() > 0 {
        let rest = s.drop_last();
        let x = s.last();
        lemma_sort_names(rest);
        let t = spec_sort_by_pkd(rest);
        lemma_sort_by_pkd(rest);
        let p = insertion_point(t, x.pkd.rank, 0);
        lemma_insertion_point(t, x.pkd.rank, 0);
        assert(names_of(t.insert(p as int, x)) =~= names_of(t).insert(p as int, x.name@));
        vstd::seq_lib::to_multiset_insert(names_of(t), p as int, x.name@);
        assert(names_of(s) =~= names_of(rest).push(x.name@));
        vstd::seq_lib::to_multiset_build(names_of(rest), x.name@);
    }
}

} // verus!
