use crate::cell::{fill, fill_shift, filling, STAFF_PER_SHIFT};
use crate::employee::{lemma_grant_books, lemma_one_more, Employee, EmployeeView};
use crate::headcount::{
    free_count, lemma_free_covered, lemma_free_packed,
    lemma_workload_after_booking, total_workload,
};
use crate::roster::{lemma_same_people_same_names, names_distinct, roster_wf, same_people};
use crate::shuffle::{next_seed, roll_call, seeded_shuffle, ShuffleSource};
use vstd::prelude::*;

verus! {

/// The display names of the employees at the positions `staff`.
pub open spec fn names_of(roster: Seq<EmployeeView>, staff: Seq<usize>) -> Seq<Seq<char>> {
    Seq::new(staff.len(), |k: int| roster[staff[k] as int].name)
}

/// Looks up the display names of the employees at the positions `staff`.
pub fn staff_names(employees: &Vec<Employee>, staff: &Vec<usize>) -> (names: Vec<String>)
    requires
        forall|k: int| 0 <= k < staff@.len() ==> (#[trigger] staff@[k]) < employees@.len(),
    ensures
        names.deep_view() == names_of(employees.deep_view(), staff@),
{
    let mut names: Vec<String> = Vec::new();
    let mut k: usize = 0;
    while k < staff.len()
        invariant
            k <= staff.len(),
            names@.len() == k,
            forall|k: int| 0 <= k < staff@.len() ==> (#[trigger] staff@[k]) < employees@.len(),
            forall|j: int|
                0 <= j < k ==> (#[trigger] names@[j])@ == employees.deep_view()[staff@[j] as int].name,
        decreases staff.len() - k,
    {
        names.push(employees[staff[k]].name.clone());
        k += 1;
    }
    assert(names.deep_view() =~= names_of(employees.deep_view(), staff@));
    names
}

/// Where a day's planning stopped short: the position of the shift whose
/// cell could not be filled, and how many employees that cell got.
#[derive(Clone, Copy, Debug)]
pub struct Shortfall {
    pub shift: usize,
    pub assigned: usize,
}

/// How the planning of one day ends: with every cell of the day filled, or at
/// the first cell that stayed short. Either way the roster and the seed are
/// those that the planning left behind.
pub enum DayOutcome {
    Staffed { roster: Seq<EmployeeView>, seed: u64, cells: Seq<Seq<Seq<char>>> },
    Short { roster: Seq<EmployeeView>, seed: u64, shift: nat, assigned: nat },
}

/// The cells of a day from the shift at position `from` on, filled one after
/// the other over the same `order`; `cells` holds the names of those filled
/// before.
pub open spec fn plan_shifts(
    roster: Seq<EmployeeView>,
    seed: u64,
    day: Seq<char>,
    shifts: Seq<Seq<char>>,
    order: Seq<usize>,
    cells: Seq<Seq<Seq<char>>>,
    from: int,
) -> DayOutcome
    decreases shifts.len() - from,
{
    if 0 <= from < shifts.len() {
        let filled = fill(roster, day, shifts[from], order, seed);
        if filled.staff.len() < STAFF_PER_SHIFT {
            DayOutcome::Short {
                roster: filled.roster,
                seed: filled.seed,
                shift: from as nat,
                assigned: filled.staff.len(),
            }
        } else {
            plan_shifts(
                filled.roster,
                filled.seed,
                day,
                shifts,
                order,
                cells.push(names_of(filled.roster, filled.staff)),
                from + 1,
            )
        }
    } else {
        DayOutcome::Staffed { roster, seed, cells }
    }
}

/// The planning of one day: the roster's positions are shuffled once, and
/// that order serves every cell of the day.
pub open spec fn day_plan(
    roster: Seq<EmployeeView>,
    seed: u64,
    day: Seq<char>,
    shifts: Seq<Seq<char>>,
) -> DayOutcome {
    plan_shifts(
        roster,
        next_seed(seed),
        day,
        shifts,
        seeded_shuffle(seed, roll_call(roster.len())),
        Seq::empty(),
        0,
    )
}

/// What a call of [`plan_day`] has left behind, as an outcome of the model.
pub open spec fn day_outcome(
    roster: Seq<EmployeeView>,
    seed: u64,
    outcome: Result<Vec<Vec<String>>, Shortfall>,
) -> DayOutcome {
    match outcome {
        Ok(cells) => DayOutcome::Staffed { roster, seed, cells: cells.deep_view() },
        Err(short) => DayOutcome::Short {
            roster,
            seed,
            shift: short.shift as nat,
            assigned: short.assigned as nat,
        },
    }
}

/// `booked` tells who staffs the cells of a day: two positions for each
/// shift, in the order of the shifts, all of them different employees of
/// `roster`, whose names the cells hold and who work that shift on `day`.
pub open spec fn staffed_by(
    roster: Seq<EmployeeView>,
    cells: Seq<Seq<Seq<char>>>,
    booked: Seq<usize>,
    day: Seq<char>,
    shifts: Seq<Seq<char>>,
) -> bool {
    &&& cells.len() == shifts.len()
    &&& booked.len() == 2 * shifts.len()
    &&& booked.no_duplicates()
    &&& forall|s: int| 0 <= s < cells.len() ==> (#[trigger] cells[s]).len() == 2
    &&& forall|j: int|
        0 <= j < booked.len() ==> {
            &&& (#[trigger] booked[j]) < roster.len()
            &&& cells[j / 2][j % 2] == roster[booked[j] as int].name
            &&& roster[booked[j] as int].works(day, shifts[j / 2])
        }
}

/// Every cell of the day holds the names of two employees of `roster` who
/// work that shift on `day`, and no employee staffs two places of the day.
pub open spec fn day_staffed(
    roster: Seq<EmployeeView>,
    cells: Seq<Seq<Seq<char>>>,
    day: Seq<char>,
    shifts: Seq<Seq<char>>,
) -> bool {
    exists|booked: Seq<usize>| staffed_by(roster, cells, booked, day, shifts)
}

/// One of the day's cells is that of a shift labelled `shift` and holds
/// `name`.
pub open spec fn placed(
    cells: Seq<Seq<Seq<char>>>,
    shifts: Seq<Seq<char>>,
    shift: Seq<char>,
    name: Seq<char>,
) -> bool {
    exists|s: int|
        0 <= s < shifts.len() && s < cells.len() && shifts[s] == shift && (#[trigger] cells[s]).contains(
            name,
        )
}

/// Every record of `later` extends the record at the same position of
/// `earlier`.
pub open spec fn roster_extends(later: Seq<EmployeeView>, earlier: Seq<EmployeeView>) -> bool {
    &&& later.len() == earlier.len()
    &&& forall|i: int| 0 <= i < later.len() ==> (#[trigger] later[i]).extends(earlier[i])
}

/// Plans one day: shuffles the roster once, then fills the cell of each
/// shift in turn, all over that one order. The planning stops at the first
/// cell that stays short and reports it; the shifts granted up to that point
/// stay granted.
///
/// On success the result holds, for each shift in order, the names of the two
/// employees who staff it. Where no two employees share a name, the shuffle
/// has no say in whether the day succeeds: it does when at least two
/// employees for every shift are free at its start, and else it stops at the
/// cell at which the free employees run out.
pub fn plan_day(
    employees: &mut Vec<Employee>,
    day: &String,
    shifts: &Vec<String>,
    source: &mut ShuffleSource,
) -> (outcome: Result<Vec<Vec<String>>, Shortfall>)
    ensures
        day_outcome(final(employees).deep_view(), final(source).seed, outcome) == day_plan(
            old(employees).deep_view(),
            old(source).seed,
            day@,
            shifts.deep_view(),
        ),
        roster_extends(final(employees).deep_view(), old(employees).deep_view()),
        roster_wf(old(employees).deep_view()) ==> roster_wf(final(employees).deep_view()),
        forall|i: int|
            0 <= i < old(employees)@.len() ==> (#[trigger] final(employees).deep_view()[i]).at_most_one_more(
                old(employees).deep_view()[i],
                day@,
            ),
        outcome is Ok ==> day_staffed(
            final(employees).deep_view(),
            outcome->Ok_0.deep_view(),
            day@,
            shifts.deep_view(),
        ),
        outcome is Ok ==> forall|i: int|
            0 <= i < old(employees)@.len() ==> (#[trigger] final(employees).deep_view()[i])
                == old(employees).deep_view()[i] || placed(
                outcome->Ok_0.deep_view(),
                shifts.deep_view(),
                final(employees).deep_view()[i].history.last().1,
                final(employees).deep_view()[i].name,
            ),
        outcome is Ok ==> total_workload(final(employees).deep_view()) == total_workload(
            old(employees).deep_view(),
        ) + STAFF_PER_SHIFT * shifts@.len(),
        outcome is Err ==> outcome->Err_0.shift < shifts@.len() && outcome->Err_0.assigned
            < STAFF_PER_SHIFT,
        names_distinct(old(employees).deep_view()) ==> (outcome is Ok <==> free_count(
            old(employees).deep_view(),
            day@,
        ) >= STAFF_PER_SHIFT * shifts@.len()),
        names_distinct(old(employees).deep_view()) && outcome is Err ==> STAFF_PER_SHIFT
            * outcome->Err_0.shift + outcome->Err_0.assigned == free_count(
            old(employees).deep_view(),
            day@,
        ),
{
    let ghost start = employees.deep_view();
    let ghost seed0 = source.seed;
    let ghost labels = shifts.deep_view();
    let n = employees.len();
    let order = source.ordering(n);
    let mut cells: Vec<Vec<String>> = Vec::new();
    let ghost mut booked: Seq<usize> = Seq::empty();
    let mut s: usize = 0;
    assert(cells.deep_view() =~= Seq::empty());
    while s < shifts.len()
        invariant
            s <= shifts.len(),
            n == start.len(),
            start == old(employees).deep_view(),
            seed0 == old(source).seed,
            labels == shifts.deep_view(),
            employees.deep_view().len() == n,
            forall|i: usize| i < n ==> order@.contains(i),
            day_plan(start, seed0, day@, labels) == plan_shifts(
                employees.deep_view(),
                source.seed,
                day@,
                labels,
                order@,
                cells.deep_view(),
                s as int,
            ),
            roster_wf(start) ==> roster_wf(employees.deep_view()),
            same_people(employees.deep_view(), start),
            cells@.len() == s,
            booked.len() == 2 * s,
            booked.no_duplicates(),
            forall|c: int| 0 <= c < s ==> (#[trigger] cells.deep_view()[c]).len() == 2,
            forall|j: int|
                0 <= j < booked.len() ==> {
                    &&& (#[trigger] booked[j]) < n
                    &&& start[booked[j] as int].available(day@)
                    &&& employees.deep_view()[booked[j] as int] == start[booked[j] as int].grant(
                        day@,
                        labels[j / 2],
                    )
                    &&& cells.deep_view()[j / 2][j % 2] == start[booked[j] as int].name
                },
            forall|i: usize|
                i < n && !booked.contains(i) ==> (#[trigger] employees.deep_view()[i as int])
                    == start[i as int],
        decreases shifts.len() - s,
    {
        let ghost before = employees.deep_view();
        let ghost cells_before = cells.deep_view();
        let staff = fill_shift(employees, day, &shifts[s], &order, source);
        let ghost after = employees.deep_view();
        let ghost cell = filling(after, staff@);
        let ghost grown = booked + staff@;
        assert(shifts[s as int]@ == labels[s as int]);
        assert(after.len() == n);
        proof {
            assert forall|j: int| 0 <= j < booked.len() implies start[(
            #[trigger] booked[j]) as int].grant(day@, labels[j / 2]).busy_on(day@) by {
                lemma_grant_books(start[booked[j] as int], day@, labels[j / 2]);
            }
            assert forall|k: int| 0 <= k < staff@.len() implies !booked.contains(
                #[trigger] staff@[k],
            ) && before[staff@[k] as int] == start[staff@[k] as int] by {
                assert(before[staff@[k] as int].available(day@));
                if booked.contains(staff@[k]) {
                    let b = choose|b: int| 0 <= b < booked.len() && booked[b] == staff@[k];
                    assert(before[booked[b] as int].busy_on(day@));
                }
            }
            assert forall|a: int, b: int| 0 <= a < b < grown.len() implies grown[a] != grown[b] by {
                if a < booked.len() && b >= booked.len() {
                    assert(booked.contains(booked[a]));
                    assert(!booked.contains(staff@[b - booked.len()]));
                }
            }
            assert forall|j: int| 0 <= j < grown.len() implies {
                &&& (#[trigger] grown[j]) < n
                &&& start[grown[j] as int].available(day@)
                &&& after[grown[j] as int] == start[grown[j] as int].grant(day@, labels[j / 2])
            } by {
                if j < booked.len() {
                    assert(!staff@.contains(booked[j])) by {
                        if staff@.contains(booked[j]) {
                            let k = choose|k: int| 0 <= k < staff@.len() && staff@[k] == booked[j];
                            assert(booked.contains(booked[j]));
                        }
                    }
                } else {
                    let k = j - booked.len();
                    assert(staff@.contains(staff@[k]));
                    assert(j / 2 == s);
                }
            }
            assert forall|i: usize| i < n && !grown.contains(i) implies (#[trigger] after[i as int])
                == start[i as int] by {
                if booked.contains(i) {
                    let b = choose|b: int| 0 <= b < booked.len() && booked[b] == i;
                    assert(grown[b] == i);
                }
                if staff@.contains(i) {
                    let k = choose|k: int| 0 <= k < staff@.len() && staff@[k] == i;
                    assert(grown[booked.len() + k] == i);
                }
            }
            assert forall|i: int| 0 <= i < n implies (#[trigger] after[i]).at_most_one_more(
                start[i],
                day@,
            ) && after[i].extends(start[i]) by {
                let u = i as usize;
                if grown.contains(u) {
                    let j = choose|j: int| 0 <= j < grown.len() && grown[j] == u;
                    let e = start[i];
                    assert(after[grown[j] as int] == e.grant(day@, labels[j / 2]));
                    assert(e.grant(day@, labels[j / 2]).history.last().1 == labels[j / 2]);
                } else {
                    assert(after[u as int] == start[u as int]);
                }
                lemma_one_more(after[i], start[i], day@);
            }
            lemma_free_packed(start, day@, n as nat, grown);
        }
        if staff.len() < STAFF_PER_SHIFT {
            proof {
                if names_distinct(start) {
                    lemma_same_people_same_names(after, start);
                    assert forall|i: usize| i < n && start[i as int].available(day@) implies grown.contains(
                        i,
                    ) by {
                        if !grown.contains(i) {
                            assert(order@.contains(i));
                            let k = choose|k: int| 0 <= k < order@.len() && order@[k] == i;
                            assert(!cell.in_pool(order@[k], day@));
                            assert(after[i as int] == start[i as int]);
                            assert(cell.lists(cell.roster[i as int].name));
                            let m = choose|m: int|
                                0 <= m < cell.staff.len() && (#[trigger] cell.staff[m])
                                    < cell.roster.len() && cell.roster[cell.staff[m] as int].name
                                    == cell.roster[i as int].name;
                            assert(grown[booked.len() + m] == staff@[m]);
                            assert(staff@[m] != i);
                        }
                    }
                    lemma_free_covered(start, day@, n as nat, grown);
                }
            }
            return Err(Shortfall { shift: s, assigned: staff.len() });
        }
        let names = staff_names(employees, &staff);
        cells.push(names);
        proof {
            assert(cells.deep_view() =~= cells_before.push(names_of(after, staff@)));
            assert forall|j: int| 0 <= j < grown.len() implies cells.deep_view()[j / 2][j % 2]
                == start[(#[trigger] grown[j]) as int].name by {
                if j < booked.len() {
                    assert(cells.deep_view()[j / 2] == cells_before[j / 2]);
                    assert(booked[j] == grown[j]);
                } else {
                    let k = j - booked.len();
                    assert(j / 2 == s && j % 2 == k);
                    assert(cells.deep_view()[s as int] == names_of(after, staff@));
                    assert(after[staff@[k] as int].same_person(start[staff@[k] as int]));
                }
            }
            booked = grown;
        }
        s += 1;
    }
    proof {
        let done = employees.deep_view();
        assert forall|i: int| 0 <= i < n implies (#[trigger] done[i]).at_most_one_more(
            start[i],
            day@,
        ) && done[i].extends(start[i]) by {
            let u = i as usize;
            if booked.contains(u) {
                let j = choose|j: int| 0 <= j < booked.len() && booked[j] == u;
                let e = start[i];
                assert(done[booked[j] as int] == e.grant(day@, labels[j / 2]));
                assert(e.grant(day@, labels[j / 2]).history.last().1 == labels[j / 2]);
            } else {
                assert(done[u as int] == start[u as int]);
            }
            lemma_one_more(done[i], start[i], day@);
        }
        assert(staffed_by(done, cells.deep_view(), booked, day@, labels)) by {
            assert forall|j: int| 0 <= j < booked.len() implies {
                &&& (#[trigger] booked[j]) < done.len()
                &&& cells.deep_view()[j / 2][j % 2] == done[booked[j] as int].name
                &&& done[booked[j] as int].works(day@, labels[j / 2])
            } by {
                lemma_grant_books(start[booked[j] as int], day@, labels[j / 2]);
            }
        }
        lemma_free_packed(start, day@, n as nat, booked);
        lemma_workload_after_booking(start, done, booked, n as nat);
        assert forall|i: int| 0 <= i < n implies (#[trigger] done[i]) == start[i] || placed(
            cells.deep_view(),
            labels,
            done[i].history.last().1,
            done[i].name,
        ) by {
            let u = i as usize;
            if booked.contains(u) {
                let j = choose|j: int| 0 <= j < booked.len() && booked[j] == u;
                let e = start[i];
                assert(done[booked[j] as int] == e.grant(day@, labels[j / 2]));
                assert(e.grant(day@, labels[j / 2]).history.last().1 == labels[j / 2]);
                assert(cells.deep_view()[j / 2][j % 2] == done[i].name);
                assert(cells.deep_view()[j / 2].contains(done[i].name));
            } else {
                assert(done[u as int] == start[u as int]);
            }
        }
    }
    Ok(cells)
}

} // verus!
