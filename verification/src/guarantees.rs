use crate::day::{day_staffed, staffed_by};
use crate::employee::EmployeeView;
use crate::engine::{attempts, generate};
use crate::roster::{cleared, names_distinct, same_people};
use crate::week::week_staffed;
use vstd::prelude::*;

verus! {

/// No name stands at two places of the day: neither twice in one cell nor in
/// the cells of two shifts.
pub open spec fn names_apart(cells: Seq<Seq<Seq<char>>>) -> bool {
    forall|s1: int, k1: int, s2: int, k2: int|
        0 <= s1 < cells.len() && 0 <= k1 < cells[s1].len() && 0 <= s2 < cells.len() && 0 <= k2
            < cells[s2].len() && (s1 != s2 || k1 != k2) ==> (#[trigger] cells[s1][k1]) != (
        #[trigger] cells[s2][k2])
}

/// Where no two employees share a display name, every cell of a staffed day
/// holds exactly two names, and no name stands at two places of the day: the
/// two names of a cell differ, and nobody is booked for two shifts of the
/// day.
pub proof fn lemma_staffed_day_names_apart(
    roster: Seq<EmployeeView>,
    cells: Seq<Seq<Seq<char>>>,
    day: Seq<char>,
    shifts: Seq<Seq<char>>,
)
    requires
        day_staffed(roster, cells, day, shifts),
        names_distinct(roster),
    ensures
        cells.len() == shifts.len(),
        forall|s: int| 0 <= s < cells.len() ==> (#[trigger] cells[s]).len() == 2,
        names_apart(cells),
{
    let booked = choose|booked: Seq<usize>| staffed_by(roster, cells, booked, day, shifts);
    assert forall|s1: int, k1: int, s2: int, k2: int|
        0 <= s1 < cells.len() && 0 <= k1 < cells[s1].len() && 0 <= s2 < cells.len() && 0 <= k2
            < cells[s2].len() && (s1 != s2 || k1 != k2) implies (#[trigger] cells[s1][k1]) != (
    #[trigger] cells[s2][k2]) by {
        let a = 2 * s1 + k1;
        let b = 2 * s2 + k2;
        assert(cells[s1].len() == 2 && cells[s2].len() == 2);
        assert(a / 2 == s1 && a % 2 == k1 && b / 2 == s2 && b % 2 == k2);
        assert(booked[a] != booked[b]);
        assert(cells[s1][k1] == roster[booked[a] as int].name);
        assert(cells[s2][k2] == roster[booked[b] as int].name);
        if booked[a] < booked[b] {
            assert(roster[booked[a] as int].name != roster[booked[b] as int].name);
        } else {
            assert(roster[booked[b] as int].name != roster[booked[a] as int].name);
        }
    }
}

/// The same for every day of a staffed week.
pub proof fn lemma_staffed_week_names_apart(
    roster: Seq<EmployeeView>,
    cells: Seq<Seq<Seq<Seq<char>>>>,
    days: Seq<Seq<char>>,
    shifts: Seq<Seq<char>>,
)
    requires
        week_staffed(roster, cells, days, shifts),
        names_distinct(roster),
    ensures
        forall|d: int|
            0 <= d < cells.len() ==> {
                &&& (#[trigger] cells[d]).len() == shifts.len()
                &&& names_apart(cells[d])
                &&& forall|s: int| 0 <= s < cells[d].len() ==> (#[trigger] cells[d][s]).len() == 2
            },
{
    assert forall|d: int| 0 <= d < cells.len() implies {
        &&& (#[trigger] cells[d]).len() == shifts.len()
        &&& names_apart(cells[d])
        &&& forall|s: int| 0 <= s < cells[d].len() ==> (#[trigger] cells[d][s]).len() == 2
    } by {
        lemma_staffed_day_names_apart(roster, cells[d], days[d], shifts);
    }
}

/// The making of a schedule depends on who is on the roster, on the grid, on
/// the seed and on the number of restarts, and on nothing else: two rosters
/// that list the same people give the same schedule, the same workloads and
/// histories and the same next seed, whatever either roster had been granted
/// before.
pub proof fn lemma_same_seed_same_schedule(
    a: Seq<EmployeeView>,
    b: Seq<EmployeeView>,
    seed: u64,
    days: Seq<Seq<char>>,
    shifts: Seq<Seq<char>>,
    max_restarts: nat,
)
    requires
        same_people(a, b),
    ensures
        generate(a, seed, days, shifts, max_restarts) == generate(b, seed, days, shifts, max_restarts),
{
    assert(cleared(a) =~= cleared(b)) by {
        assert forall|i: int| 0 <= i < a.len() implies cleared(a)[i] == cleared(b)[i] by {
            assert(a[i].same_person(b[i]));
        }
    }
    assert(attempts(a, seed, days, shifts, max_restarts, 0) == attempts(
        b,
        seed,
        days,
        shifts,
        max_restarts,
        0,
    ));
}

} // verus!
