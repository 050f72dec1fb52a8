use crate::employee::{EmployeeView, MAX_SHIFTS};
use vstd::prelude::*;

verus! {

/// How many of the first `n` members of the roster may still be given a
/// shift on `day`.
pub open spec fn free_among(roster: Seq<EmployeeView>, day: Seq<char>, n: nat) -> nat
    decreases n,
{
    if n == 0 {
        0
    } else {
        free_among(roster, day, (n - 1) as nat) + if roster[n - 1].available(day) {
            1nat
        } else {
            0nat
        }
    }
}

/// How many members of the roster may still be given a shift on `day`.
pub open spec fn free_count(roster: Seq<EmployeeView>, day: Seq<char>) -> nat {
    free_among(roster, day, roster.len())
}

/// A list that names every free employee among the first `n` is at least as
/// long as their number.
pub proof fn lemma_free_covered(roster: Seq<EmployeeView>, day: Seq<char>, n: nat, who: Seq<usize>)
    requires
        n <= roster.len(),
        n <= usize::MAX,
        forall|i: usize| i < n && roster[i as int].available(day) ==> who.contains(i),
    ensures
        free_among(roster, day, n) <= who.len(),
    decreases n,
{
    if n > 0 {
        let last = (n - 1) as usize;
        if roster[n - 1].available(day) {
            assert(who.contains(last));
            let j = choose|j: int| 0 <= j < who.len() && who[j] == last;
            let rest = who.remove(j);
            assert forall|i: usize| i < n - 1 && roster[i as int].available(day) implies rest.contains(
                i,
            ) by {
                assert(who.contains(i));
                let k = choose|k: int| 0 <= k < who.len() && who[k] == i;
                if k < j {
                    assert(rest[k] == i);
                } else {
                    assert(rest[k - 1] == i);
                }
            }
            lemma_free_covered(roster, day, (n - 1) as nat, rest);
        } else {
            lemma_free_covered(roster, day, (n - 1) as nat, who);
        }
    }
}

/// A list of different free employees among the first `n` is at most as long
/// as their number.
pub proof fn lemma_free_packed(roster: Seq<EmployeeView>, day: Seq<char>, n: nat, who: Seq<usize>)
    requires
        n <= roster.len(),
        who.no_duplicates(),
        forall|j: int|
            0 <= j < who.len() ==> (#[trigger] who[j]) < n && roster[who[j] as int].available(day),
    ensures
        who.len() <= free_among(roster, day, n),
    decreases n,
{
    if n == 0 {
        if who.len() > 0 {
            assert(who[0] < n);
        }
    } else {
        if exists|j: int| 0 <= j < who.len() && who[j] == n - 1 {
            let j = choose|j: int| 0 <= j < who.len() && who[j] == n - 1;
            let rest = who.remove(j);
            assert forall|k: int| 0 <= k < rest.len() implies (#[trigger] rest[k]) < n - 1
                && roster[rest[k] as int].available(day) by {
                if k < j {
                    assert(rest[k] == who[k]);
                } else {
                    assert(rest[k] == who[k + 1]);
                }
            }
            assert(rest.no_duplicates());
            lemma_free_packed(roster, day, (n - 1) as nat, rest);
        } else {
            assert forall|k: int| 0 <= k < who.len() implies (#[trigger] who[k]) < n - 1 by {}
            lemma_free_packed(roster, day, (n - 1) as nat, who);
        }
    }
}

/// Where everyone among the first `n` is free, the free are `n`.
pub proof fn lemma_all_free(roster: Seq<EmployeeView>, day: Seq<char>, n: nat)
    requires
        n <= roster.len(),
        forall|i: int| 0 <= i < n ==> (#[trigger] roster[i]).available(day),
    ensures
        free_among(roster, day, n) == n,
    decreases n,
{
    if n > 0 {
        lemma_all_free(roster, day, (n - 1) as nat);
    }
}

/// The workloads of the first `n` members of the roster, added up.
pub open spec fn workload_among(roster: Seq<EmployeeView>, n: nat) -> nat
    decreases n,
{
    if n == 0 {
        0
    } else {
        workload_among(roster, (n - 1) as nat) + roster[n - 1].days_worked
    }
}

/// The workloads of the roster, added up.
pub open spec fn total_workload(roster: Seq<EmployeeView>) -> nat {
    workload_among(roster, roster.len())
}

/// How many of the first `n` members of the roster have reached the limit of
/// the workload.
pub open spec fn spent_among(roster: Seq<EmployeeView>, n: nat) -> nat
    decreases n,
{
    if n == 0 {
        0
    } else {
        spent_among(roster, (n - 1) as nat) + if roster[n - 1].days_worked >= MAX_SHIFTS {
            1nat
        } else {
            0nat
        }
    }
}

/// Everyone who has reached the limit accounts for that many shifts of the
/// total; and where nobody is busy on `day`, whoever has not reached the
/// limit is free.
pub proof fn lemma_spent_or_free(roster: Seq<EmployeeView>, day: Seq<char>, n: nat)
    requires
        n <= roster.len(),
        forall|i: int| 0 <= i < n ==> !(#[trigger] roster[i]).busy_on(day),
    ensures
        MAX_SHIFTS * spent_among(roster, n) <= workload_among(roster, n),
        free_among(roster, day, n) + spent_among(roster, n) == n,
    decreases n,
{
    if n > 0 {
        lemma_spent_or_free(roster, day, (n - 1) as nat);
        assert(!roster[n - 1].busy_on(day));
    }
}

/// Where `later` is `earlier` with one shift more for each of the different
/// employees in `booked`, and nothing else, the workloads add up to as many
/// more as `booked` is long.
pub proof fn lemma_workload_after_booking(
    earlier: Seq<EmployeeView>,
    later: Seq<EmployeeView>,
    booked: Seq<usize>,
    n: nat,
)
    requires
        n <= earlier.len(),
        n <= later.len(),
        n <= usize::MAX,
        booked.no_duplicates(),
        forall|j: int| 0 <= j < booked.len() ==> (#[trigger] booked[j]) < n,
        forall|i: usize|
            i < n ==> (#[trigger] later[i as int]).days_worked == earlier[i as int].days_worked + (
            if booked.contains(i) {
                1nat
            } else {
                0nat
            }),
    ensures
        workload_among(later, n) == workload_among(earlier, n) + booked.len(),
    decreases n,
{
    if n == 0 {
        if booked.len() > 0 {
            assert(booked[0] < n);
        }
    } else {
        let last = (n - 1) as usize;
        assert(later[last as int].days_worked == earlier[last as int].days_worked + (
        if booked.contains(last) {
            1nat
        } else {
            0nat
        }));
        if booked.contains(last) {
            let j = choose|j: int| 0 <= j < booked.len() && booked[j] == last;
            let rest = booked.remove(j);
            assert(rest.no_duplicates());
            assert forall|k: int| 0 <= k < rest.len() implies (#[trigger] rest[k]) < n - 1 by {
                if k < j {
                    assert(rest[k] == booked[k]);
                } else {
                    assert(rest[k] == booked[k + 1]);
                }
            }
            assert forall|i: usize| i < n - 1 implies (rest.contains(i) <==> booked.contains(i)) by {
                if booked.contains(i) {
                    let k = choose|k: int| 0 <= k < booked.len() && booked[k] == i;
                    if k < j {
                        assert(rest[k] == i);
                    } else {
                        assert(rest[k - 1] == i);
                    }
                }
                if rest.contains(i) {
                    let k = choose|k: int| 0 <= k < rest.len() && rest[k] == i;
                    if k < j {
                        assert(booked[k] == i);
                    } else {
                        assert(booked[k + 1] == i);
                    }
                }
            }
            lemma_workload_after_booking(earlier, later, rest, (n - 1) as nat);
        } else {
            assert forall|k: int| 0 <= k < booked.len() implies (#[trigger] booked[k]) < n - 1 by {
                assert(booked.contains(booked[k]));
            }
            lemma_workload_after_booking(earlier, later, booked, (n - 1) as nat);
        }
    }
}

/// A roster of workloads that are all zero adds up to zero.
pub proof fn lemma_no_workload(roster: Seq<EmployeeView>, n: nat)
    requires
        n <= roster.len(),
        forall|i: int| 0 <= i < n ==> (#[trigger] roster[i]).days_worked == 0,
    ensures
        workload_among(roster, n) == 0,
    decreases n,
{
    if n > 0 {
        lemma_no_workload(roster, (n - 1) as nat);
    }
}

} // verus!
