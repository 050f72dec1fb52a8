use crate::cell::STAFF_PER_SHIFT;
use crate::day::{
    day_plan, day_staffed, placed, plan_day, roster_extends, staffed_by, DayOutcome,
};
use crate::employee::{
    lemma_extends_keeps_work, lemma_one_more, Employee, EmployeeView, MAX_SHIFTS,
};
use crate::headcount::{
    free_among, free_count, lemma_all_free, lemma_spent_or_free, spent_among, total_workload,
};
use crate::roster::{lemma_same_people_same_names, names_distinct, roster_wf, same_people};
use crate::schedule::{copy_labels, Schedule};
use crate::shuffle::ShuffleSource;
use vstd::prelude::*;

verus! {

/// Where a pass over the grid stopped short: the positions of the day and of
/// the shift whose cell could not be filled, and how many employees that
/// cell got.
#[derive(Clone, Copy, Debug)]
pub struct Stall {
    pub day: usize,
    pub shift: usize,
    pub assigned: usize,
}

/// How one pass over the grid ends: with every cell filled, or at the first
/// cell that stayed short.
pub enum WeekOutcome {
    Complete { roster: Seq<EmployeeView>, seed: u64, cells: Seq<Seq<Seq<Seq<char>>>> },
    Short { roster: Seq<EmployeeView>, seed: u64, day: nat, shift: nat, assigned: nat },
}

/// The days of the grid from position `from` on, planned one after the
/// other; `cells` holds the days planned before.
pub open spec fn plan_days(
    roster: Seq<EmployeeView>,
    seed: u64,
    days: Seq<Seq<char>>,
    shifts: Seq<Seq<char>>,
    cells: Seq<Seq<Seq<Seq<char>>>>,
    from: int,
) -> WeekOutcome
    decreases days.len() - from,
{
    if 0 <= from < days.len() {
        match day_plan(roster, seed, days[from], shifts) {
            DayOutcome::Staffed { roster: after, seed: next, cells: day } => plan_days(
                after,
                next,
                days,
                shifts,
                cells.push(day),
                from + 1,
            ),
            DayOutcome::Short { roster: after, seed: next, shift, assigned } => WeekOutcome::Short {
                roster: after,
                seed: next,
                day: from as nat,
                shift,
                assigned,
            },
        }
    } else {
        WeekOutcome::Complete { roster, seed, cells }
    }
}

/// One pass over the whole grid, from the roster as it stands.
pub open spec fn week_plan(
    roster: Seq<EmployeeView>,
    seed: u64,
    days: Seq<Seq<char>>,
    shifts: Seq<Seq<char>>,
) -> WeekOutcome {
    plan_days(roster, seed, days, shifts, Seq::empty(), 0)
}

/// What a call of [`plan_week`] has left behind, as an outcome of the model.
pub open spec fn week_outcome(
    roster: Seq<EmployeeView>,
    seed: u64,
    outcome: Result<Schedule, Stall>,
) -> WeekOutcome {
    match outcome {
        Ok(schedule) => WeekOutcome::Complete { roster, seed, cells: schedule.cells.deep_view() },
        Err(stall) => WeekOutcome::Short {
            roster,
            seed,
            day: stall.day as nat,
            shift: stall.shift as nat,
            assigned: stall.assigned as nat,
        },
    }
}

/// Every day of the grid is staffed from `roster`: each cell holds the names
/// of two employees who work that shift on that day, and within a day no
/// employee staffs two places.
pub open spec fn week_staffed(
    roster: Seq<EmployeeView>,
    cells: Seq<Seq<Seq<Seq<char>>>>,
    days: Seq<Seq<char>>,
    shifts: Seq<Seq<char>>,
) -> bool {
    &&& cells.len() == days.len()
    &&& forall|d: int|
        0 <= d < days.len() ==> day_staffed(roster, #[trigger] cells[d], days[d], shifts)
}

/// The schedule has a cell for a day and a shift labelled as `entry` says,
/// and that cell holds `name`.
pub open spec fn listed_in(
    cells: Seq<Seq<Seq<Seq<char>>>>,
    days: Seq<Seq<char>>,
    shifts: Seq<Seq<char>>,
    entry: (Seq<char>, Seq<char>),
    name: Seq<char>,
) -> bool {
    exists|d: int|
        0 <= d < days.len() && d < cells.len() && days[d] == entry.0 && placed(
            #[trigger] cells[d],
            shifts,
            entry.1,
            name,
        )
}

/// Whatever the histories of `roster` hold beyond those of `earlier` is
/// found in the schedule: the cell of that day and shift holds the
/// employee's name.
pub open spec fn histories_listed(
    roster: Seq<EmployeeView>,
    earlier: Seq<EmployeeView>,
    cells: Seq<Seq<Seq<Seq<char>>>>,
    days: Seq<Seq<char>>,
    shifts: Seq<Seq<char>>,
) -> bool {
    forall|i: int, k: int|
        0 <= i < roster.len() && earlier[i].history.len() <= k < roster[i].history.len()
            ==> listed_in(cells, days, shifts, #[trigger] roster[i].history[k], roster[i].name)
}

/// No two labels of the list are the same.
pub open spec fn labels_distinct(labels: Seq<Seq<char>>) -> bool {
    forall|a: int, b: int| 0 <= a < b < labels.len() ==> labels[a] != labels[b]
}

/// Nobody on the roster is busy yet on any of the days.
pub open spec fn unbooked_for(roster: Seq<EmployeeView>, days: Seq<Seq<char>>) -> bool {
    forall|i: int, d: int|
        0 <= i < roster.len() && 0 <= d < days.len() ==> !(#[trigger] roster[i]).busy_on(
            #[trigger] days[d],
        )
}

/// The roster can take a pass over `days` without anyone reaching the limit
/// of the workload, and nobody is busy yet on any of the days.
pub open spec fn fresh_for(roster: Seq<EmployeeView>, days: Seq<Seq<char>>) -> bool {
    &&& unbooked_for(roster, days)
    &&& forall|i: int|
        0 <= i < roster.len() ==> (#[trigger] roster[i]).days_worked + days.len() <= MAX_SHIFTS
}

/// The roster has room for a grid of `days` by `shifts`: even if the shifts
/// of all days but the last have gone to the fewest employees they can go
/// to, as many are left below the limit as a day takes.
pub open spec fn room_for(roster: Seq<EmployeeView>, days: nat, shifts: nat) -> bool {
    MAX_SHIFTS * roster.len() >= total_workload(roster) + STAFF_PER_SHIFT * shifts * (days
        + MAX_SHIFTS - 1)
}

/// A day that is staffed from a roster is staffed from every roster that
/// extends it.
pub proof fn lemma_day_stays_staffed(
    earlier: Seq<EmployeeView>,
    later: Seq<EmployeeView>,
    cells: Seq<Seq<Seq<char>>>,
    day: Seq<char>,
    shifts: Seq<Seq<char>>,
)
    requires
        day_staffed(earlier, cells, day, shifts),
        roster_extends(later, earlier),
    ensures
        day_staffed(later, cells, day, shifts),
{
    let booked = choose|booked: Seq<usize>| staffed_by(earlier, cells, booked, day, shifts);
    assert forall|j: int| 0 <= j < booked.len() implies {
        &&& (#[trigger] booked[j]) < later.len()
        &&& cells[j / 2][j % 2] == later[booked[j] as int].name
        &&& later[booked[j] as int].works(day, shifts[j / 2])
    } by {
        let i = booked[j] as int;
        assert(later[i].extends(earlier[i]));
        lemma_extends_keeps_work(later[i], earlier[i], day, shifts[j / 2]);
    }
    assert(staffed_by(later, cells, booked, day, shifts));
}

/// Makes one pass over the grid, from the roster as it stands: plans the days
/// in order and stops at the first cell that stays short. The shifts granted
/// up to that point stay granted.
///
/// Where no two employees share a name, no two days a label, and nobody is
/// busy yet on a day of the grid, the pass succeeds whatever the shuffles if
/// the roster has room for the grid.
pub fn plan_week(
    employees: &mut Vec<Employee>,
    days: &Vec<String>,
    shifts: &Vec<String>,
    source: &mut ShuffleSource,
) -> (outcome: Result<Schedule, Stall>)
    ensures
        week_outcome(final(employees).deep_view(), final(source).seed, outcome) == week_plan(
            old(employees).deep_view(),
            old(source).seed,
            days.deep_view(),
            shifts.deep_view(),
        ),
        roster_extends(final(employees).deep_view(), old(employees).deep_view()),
        roster_wf(old(employees).deep_view()) ==> roster_wf(final(employees).deep_view()),
        outcome is Ok ==> {
            &&& outcome->Ok_0.deep_view().days == days.deep_view()
            &&& outcome->Ok_0.deep_view().shifts == shifts.deep_view()
            &&& week_staffed(
                final(employees).deep_view(),
                outcome->Ok_0.deep_view().cells,
                days.deep_view(),
                shifts.deep_view(),
            )
            &&& histories_listed(
                final(employees).deep_view(),
                old(employees).deep_view(),
                outcome->Ok_0.deep_view().cells,
                days.deep_view(),
                shifts.deep_view(),
            )
        },
        outcome is Err ==> {
            &&& outcome->Err_0.day < days@.len()
            &&& outcome->Err_0.shift < shifts@.len()
            &&& outcome->Err_0.assigned < STAFF_PER_SHIFT
        },
        outcome is Ok ==> total_workload(final(employees).deep_view()) == total_workload(
            old(employees).deep_view(),
        ) + STAFF_PER_SHIFT * shifts@.len() * days@.len(),
        names_distinct(old(employees).deep_view()) && labels_distinct(days.deep_view())
            && fresh_for(old(employees).deep_view(), days.deep_view()) ==> (outcome is Ok <==> (
        days@.len() == 0 || old(employees)@.len() >= STAFF_PER_SHIFT * shifts@.len())),
        names_distinct(old(employees).deep_view()) && labels_distinct(days.deep_view())
            && unbooked_for(old(employees).deep_view(), days.deep_view()) && room_for(
            old(employees).deep_view(),
            days@.len() as nat,
            shifts@.len() as nat,
        ) ==> outcome is Ok,
{
    let ghost start = employees.deep_view();
    let ghost seed0 = source.seed;
    let ghost day_labels = days.deep_view();
    let ghost shift_labels = shifts.deep_view();
    let ghost calm = names_distinct(start) && labels_distinct(day_labels) && unbooked_for(
        start,
        day_labels,
    );
    let ghost sure = calm && fresh_for(start, day_labels);
    let ghost roomy = calm && room_for(start, days@.len() as nat, shifts@.len() as nat);
    let ghost per_day = STAFF_PER_SHIFT * shifts@.len();
    assert(per_day * 0 == 0);
    let mut cells: Vec<Vec<Vec<String>>> = Vec::new();
    let mut d: usize = 0;
    assert(cells.deep_view() =~= Seq::empty());
    while d < days.len()
        invariant
            d <= days.len(),
            start == old(employees).deep_view(),
            seed0 == old(source).seed,
            day_labels == days.deep_view(),
            shift_labels == shifts.deep_view(),
            week_plan(start, seed0, day_labels, shift_labels) == plan_days(
                employees.deep_view(),
                source.seed,
                day_labels,
                shift_labels,
                cells.deep_view(),
                d as int,
            ),
            roster_extends(employees.deep_view(), start),
            roster_wf(start) ==> roster_wf(employees.deep_view()),
            calm == (names_distinct(start) && labels_distinct(day_labels) && unbooked_for(
                start,
                day_labels,
            )),
            sure == (calm && fresh_for(start, day_labels)),
            roomy == (calm && room_for(start, days@.len() as nat, shifts@.len() as nat)),
            per_day == STAFF_PER_SHIFT * shifts@.len(),
            total_workload(employees.deep_view()) == total_workload(start) + per_day * d,
            sure && d > 0 ==> start.len() >= STAFF_PER_SHIFT * shifts@.len(),
            sure ==> forall|i: int|
                0 <= i < start.len() ==> (#[trigger] employees.deep_view()[i]).days_worked
                    <= start[i].days_worked + d,
            calm ==> forall|i: int, e: int|
                0 <= i < start.len() && d <= e < day_labels.len()
                    ==> !(#[trigger] employees.deep_view()[i]).busy_on(#[trigger] day_labels[e]),
            cells@.len() == d,
            histories_listed(
                employees.deep_view(),
                start,
                cells.deep_view(),
                day_labels,
                shift_labels,
            ),
            forall|c: int|
                0 <= c < d ==> day_staffed(
                    employees.deep_view(),
                    #[trigger] cells.deep_view()[c],
                    day_labels[c],
                    shift_labels,
                ),
        decreases days.len() - d,
    {
        let ghost before = employees.deep_view();
        let ghost cells_before = cells.deep_view();
        assert(days[d as int]@ == day_labels[d as int]);
        proof {
            if calm {
                assert(same_people(before, start));
                lemma_same_people_same_names(before, start);
            }
            if sure {
                assert forall|i: int| 0 <= i < before.len() implies (#[trigger] before[i]).available(
                    day_labels[d as int],
                ) by {
                    assert(start[i].days_worked + day_labels.len() <= MAX_SHIFTS);
                    assert(!before[i].busy_on(day_labels[d as int]));
                }
                lemma_all_free(before, day_labels[d as int], before.len());
            }
            if roomy {
                let today = day_labels[d as int];
                assert forall|i: int| 0 <= i < before.len() implies !(#[trigger] before[i]).busy_on(
                    today,
                ) by {}
                lemma_spent_or_free(before, today, before.len());
                let last = days@.len() + MAX_SHIFTS - 1;
                assert(per_day * d + per_day * MAX_SHIFTS <= per_day * last) by (nonlinear_arith)
                    requires
                        0 <= per_day,
                        0 <= d,
                        d + 5 <= last,
                        MAX_SHIFTS == 5,
                ;
                assert(per_day * last == STAFF_PER_SHIFT * shifts@.len() * last) by (nonlinear_arith)
                    requires
                        per_day == STAFF_PER_SHIFT * shifts@.len(),
                ;
                assert(MAX_SHIFTS * spent_among(before, before.len()) + MAX_SHIFTS * per_day
                    <= MAX_SHIFTS * before.len());
                assert(free_among(before, today, before.len()) >= per_day);
            }
        }
        let planned = plan_day(employees, &days[d], shifts, source);
        let ghost after = employees.deep_view();
        proof {
            assert(per_day * (d + 1) == per_day * d + per_day) by (nonlinear_arith);
            if calm {
                assert forall|i: int, e: int|
                    0 <= i < start.len() && d + 1 <= e < day_labels.len() implies !(
                #[trigger] after[i]).busy_on(#[trigger] day_labels[e]) by {
                    lemma_one_more(after[i], before[i], day_labels[d as int]);
                    assert(!before[i].busy_on(day_labels[e]));
                }
            }
            if sure {
                assert forall|i: int| 0 <= i < start.len() implies (#[trigger] after[i]).days_worked
                    <= start[i].days_worked + d + 1 by {
                    lemma_one_more(after[i], before[i], day_labels[d as int]);
                }
            }
            assert forall|i: int| 0 <= i < after.len() implies (#[trigger] after[i]).extends(
                start[i],
            ) by {
                assert(after[i].extends(before[i]));
                assert(before[i].extends(start[i]));
            }
        }
        match planned {
            Ok(day_cells) => {
                cells.push(day_cells);
                proof {
                    assert(cells.deep_view() =~= cells_before.push(day_cells.deep_view()));
                    assert forall|i: int, k: int|
                        0 <= i < after.len() && start[i].history.len() <= k
                            < after[i].history.len() implies listed_in(
                        cells.deep_view(),
                        day_labels,
                        shift_labels,
                        #[trigger] after[i].history[k],
                        after[i].name,
                    ) by {
                        lemma_one_more(after[i], before[i], day_labels[d as int]);
                        assert(before[i].extends(start[i]));
                        if k < before[i].history.len() {
                            assert(after[i].history[k] == before[i].history[k]);
                            assert(listed_in(
                                cells_before,
                                day_labels,
                                shift_labels,
                                before[i].history[k],
                                before[i].name,
                            ));
                            let w = choose|w: int|
                                0 <= w < day_labels.len() && w < cells_before.len() && day_labels[w]
                                    == before[i].history[k].0 && placed(
                                    #[trigger] cells_before[w],
                                    shift_labels,
                                    before[i].history[k].1,
                                    before[i].name,
                                );
                            assert(cells.deep_view()[w] == cells_before[w]);
                        } else {
                            assert(after[i] != before[i]);
                            assert(after[i].history.last() == after[i].history[k]);
                            assert(after[i].history[k].0 == day_labels[d as int]);
                            assert(cells.deep_view()[d as int] == day_cells.deep_view());
                        }
                    }
                    assert forall|c: int| 0 <= c < d + 1 implies day_staffed(
                        after,
                        #[trigger] cells.deep_view()[c],
                        day_labels[c],
                        shift_labels,
                    ) by {
                        if c < d {
                            assert(cells.deep_view()[c] == cells_before[c]);
                            lemma_day_stays_staffed(
                                before,
                                after,
                                cells_before[c],
                                day_labels[c],
                                shift_labels,
                            );
                        }
                    }
                }
            },
            Err(short) => {
                return Err(Stall { day: d, shift: short.shift, assigned: short.assigned });
            },
        }
        d += 1;
    }
    assert(per_day * d == STAFF_PER_SHIFT * shifts@.len() * days@.len()) by (nonlinear_arith)
        requires
            per_day == STAFF_PER_SHIFT * shifts@.len(),
            d == days@.len(),
    ;
    Ok(Schedule { days: copy_labels(days), shifts: copy_labels(shifts), cells })
}

} // verus!
