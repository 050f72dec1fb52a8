use crate::cell::STAFF_PER_SHIFT;
use crate::employee::{Employee, EmployeeView, MAX_SHIFTS};
use crate::guarantees::{lemma_staffed_week_names_apart, names_apart};
use crate::headcount::{lemma_no_workload, total_workload};
use crate::roster::{
    clear_schedule_from_employees, cleared, lemma_cleared, lemma_same_people_same_names,
    names_distinct, roster_wf, same_people,
};
use crate::schedule::{Infeasible, Schedule};
use crate::shuffle::ShuffleSource;
use crate::week::{
    fresh_for, histories_listed, labels_distinct, listed_in, plan_week, room_for, unbooked_for,
    week_plan, week_staffed, WeekOutcome,
};
use vstd::prelude::*;

verus! {

/// A roster of `employees` cannot cover a grid of `days` by `shifts`: the
/// grid has a cell and the roster fewer than two members, or the grid asks
/// for more shifts than the roster's workloads allow.
pub open spec fn understaffed(employees: nat, days: nat, shifts: nat) -> bool {
    days * shifts > 0 && (employees < STAFF_PER_SHIFT || STAFF_PER_SHIFT * (days * shifts)
        > MAX_SHIFTS * employees)
}

/// Whether a roster of `employees` cannot cover a grid of `days` by `shifts`.
pub fn is_understaffed(employees: usize, days: usize, shifts: usize) -> (short: bool)
    ensures
        short == understaffed(employees as nat, days as nat, shifts as nat),
{
    if days == 0 || shifts == 0 {
        assert(days * shifts == 0) by (nonlinear_arith)
            requires
                days == 0 || shifts == 0,
        ;
        return false;
    }
    assert(0 < days * shifts <= 0xffff_ffff_ffff_ffff * 0xffff_ffff_ffff_ffff) by (nonlinear_arith)
        requires
            0 < days <= 0xffff_ffff_ffff_ffff,
            0 < shifts <= 0xffff_ffff_ffff_ffff,
    ;
    if employees < STAFF_PER_SHIFT {
        return true;
    }
    let cells: u128 = (days as u128) * (shifts as u128);
    let capacity: u128 = (MAX_SHIFTS as u128) * (employees as u128);
    cells > capacity || 2 * cells > capacity
}

/// A roster of `employees` is ample for a grid of `days` by `shifts`: it has
/// room for the grid when nobody has been granted anything.
pub open spec fn amply_staffed(employees: nat, days: nat, shifts: nat) -> bool {
    MAX_SHIFTS * employees >= STAFF_PER_SHIFT * shifts * (days + MAX_SHIFTS - 1)
}

/// An ample roster is not understaffed.
pub proof fn lemma_ample_is_staffed(employees: nat, days: nat, shifts: nat)
    requires
        amply_staffed(employees, days, shifts),
    ensures
        !understaffed(employees, days, shifts),
{
    if days == 0 || shifts == 0 {
        assert(days * shifts == 0) by (nonlinear_arith)
            requires
                days == 0 || shifts == 0,
        ;
    } else {
        assert(2 * (days * shifts) + 8 <= 2 * shifts * (days + 5 - 1)) by (nonlinear_arith)
            requires
                0 < days,
                0 < shifts,
        ;
    }
}

/// A cleared roster has room for every grid that it is ample for, and nobody
/// on it is busy on any day.
pub proof fn lemma_cleared_has_room(roster: Seq<EmployeeView>, days: Seq<Seq<char>>, shifts: nat)
    ensures
        unbooked_for(cleared(roster), days),
        total_workload(cleared(roster)) == 0,
        amply_staffed(roster.len(), days.len(), shifts) ==> room_for(
            cleared(roster),
            days.len(),
            shifts,
        ),
{
    lemma_no_workload(cleared(roster), roster.len());
}

/// Over at most as many days as the workload allows, a roster that is
/// understaffed has fewer than two employees for every shift of a day.
pub proof fn lemma_short_week_staffing(employees: nat, days: nat, shifts: nat)
    requires
        days <= MAX_SHIFTS,
    ensures
        understaffed(employees, days, shifts) ==> days > 0 && employees < STAFF_PER_SHIFT
            * shifts,
{
    if days == 0 || shifts == 0 {
        assert(days * shifts == 0) by (nonlinear_arith)
            requires
                days == 0 || shifts == 0,
        ;
    } else {
        assert(0 < days * shifts <= 5 * shifts && shifts <= days * shifts) by (nonlinear_arith)
            requires
                0 < days <= 5,
                0 < shifts,
        ;
    }
}

/// A cleared roster is fresh for any list of days that the workload allows.
pub proof fn lemma_cleared_is_fresh(roster: Seq<EmployeeView>, days: Seq<Seq<char>>)
    requires
        days.len() <= MAX_SHIFTS,
    ensures
        fresh_for(cleared(roster), days),
{
}

/// How the making of a schedule ends.
pub enum Verdict {
    Scheduled { cells: Seq<Seq<Seq<Seq<char>>>> },
    Understaffed,
    CellShort { day: nat, shift: nat, assigned: nat, attempts: nat },
}

/// What the making of a schedule leaves behind: the roster, the seed the
/// source of shuffles has moved on to, and the verdict.
pub struct Generated {
    pub roster: Seq<EmployeeView>,
    pub seed: u64,
    pub verdict: Verdict,
}

/// Passes over the grid, each from a cleared roster, until one fills every
/// cell or `restarts` further passes have failed as well; `made` counts the
/// passes made before. After the last failure the roster is cleared.
pub open spec fn attempts(
    roster: Seq<EmployeeView>,
    seed: u64,
    days: Seq<Seq<char>>,
    shifts: Seq<Seq<char>>,
    restarts: nat,
    made: nat,
) -> Generated
    decreases restarts,
{
    match week_plan(cleared(roster), seed, days, shifts) {
        WeekOutcome::Complete { roster: after, seed: next, cells } => Generated {
            roster: after,
            seed: next,
            verdict: Verdict::Scheduled { cells },
        },
        WeekOutcome::Short { roster: after, seed: next, day, shift, assigned } => if restarts == 0 {
            Generated {
                roster: cleared(after),
                seed: next,
                verdict: Verdict::CellShort { day, shift, assigned, attempts: made + 1 },
            }
        } else {
            attempts(after, next, days, shifts, (restarts - 1) as nat, made + 1)
        },
    }
}

/// The making of a schedule: nothing is tried for a roster that cannot cover
/// the grid; otherwise one pass is made, and up to `max_restarts` more.
pub open spec fn generate(
    roster: Seq<EmployeeView>,
    seed: u64,
    days: Seq<Seq<char>>,
    shifts: Seq<Seq<char>>,
    max_restarts: nat,
) -> Generated {
    if understaffed(roster.len(), days.len(), shifts.len()) {
        Generated { roster: cleared(roster), seed, verdict: Verdict::Understaffed }
    } else {
        attempts(roster, seed, days, shifts, max_restarts, 0)
    }
}

/// The result of [`generate_schedule`] as a verdict of the model.
pub open spec fn verdict_of(result: Result<Schedule, Infeasible>) -> Verdict {
    match result {
        Ok(schedule) => Verdict::Scheduled { cells: schedule.cells.deep_view() },
        Err(Infeasible::Understaffed { .. }) => Verdict::Understaffed,
        Err(Infeasible::CellShort { day, shift, assigned, attempts }) => Verdict::CellShort {
            day: day as nat,
            shift: shift as nat,
            assigned: assigned as nat,
            attempts: attempts as nat,
        },
    }
}

/// Makes a schedule for the grid of `days` by `shifts`.
///
/// Whatever the employees had been granted before is taken back first. A
/// roster that cannot cover the grid is turned down at once. Otherwise a pass
/// over the grid is made, and after a pass that stops at a short cell the
/// roster is cleared and another pass is made, up to `max_restarts` times.
/// The shuffles are drawn from `source`, so that the same seed gives the same
/// schedule.
///
/// On success every cell holds the names of two different employees, nobody
/// works twice on a day, and the employees' workloads and histories are those
/// of the schedule returned. On failure every workload is zero and every
/// history empty.
///
/// Where no two employees share a name and no two days a label, some grids
/// are decided whatever the shuffles: an ample roster always gets its
/// schedule, and over at most as many days as the workload allows the
/// schedule is made exactly when there are two employees for every shift of
/// a day.
pub fn generate_schedule(
    employees: &mut Vec<Employee>,
    days: &Vec<String>,
    shifts: &Vec<String>,
    source: &mut ShuffleSource,
    max_restarts: u32,
) -> (result: Result<Schedule, Infeasible>)
    ensures
        (Generated {
            roster: final(employees).deep_view(),
            seed: final(source).seed,
            verdict: verdict_of(result),
        }) == generate(
            old(employees).deep_view(),
            old(source).seed,
            days.deep_view(),
            shifts.deep_view(),
            max_restarts as nat,
        ),
        same_people(final(employees).deep_view(), old(employees).deep_view()),
        roster_wf(final(employees).deep_view()),
        result is Ok ==> {
            &&& result->Ok_0.deep_view().days == days.deep_view()
            &&& result->Ok_0.deep_view().shifts == shifts.deep_view()
            &&& week_staffed(
                final(employees).deep_view(),
                result->Ok_0.deep_view().cells,
                days.deep_view(),
                shifts.deep_view(),
            )
        },
        result is Ok ==> forall|i: int, k: int|
            0 <= i < final(employees)@.len() && 0 <= k < final(employees).deep_view()[i].history.len()
                ==> listed_in(
                result->Ok_0.deep_view().cells,
                days.deep_view(),
                shifts.deep_view(),
                #[trigger] final(employees).deep_view()[i].history[k],
                final(employees).deep_view()[i].name,
            ),
        result is Ok && names_distinct(old(employees).deep_view()) ==> forall|d: int|
            0 <= d < days@.len() ==> names_apart(
                #[trigger] result->Ok_0.deep_view().cells[d],
            ),
        result is Err ==> final(employees).deep_view() == cleared(old(employees).deep_view()),
        (result is Err && result->Err_0 is Understaffed) <==> understaffed(
            old(employees)@.len(),
            days@.len(),
            shifts@.len(),
        ),
        result is Err && result->Err_0 is Understaffed ==> {
            &&& result->Err_0->employees == old(employees)@.len()
            &&& result->Err_0->days == days@.len()
            &&& result->Err_0->shifts == shifts@.len()
        },
        result is Err && result->Err_0 is CellShort ==> {
            &&& result->Err_0->day < days@.len()
            &&& result->Err_0->shift < shifts@.len()
            &&& result->Err_0->assigned < STAFF_PER_SHIFT
            &&& result->Err_0->attempts == max_restarts + 1
        },
        result is Ok ==> total_workload(final(employees).deep_view()) == STAFF_PER_SHIFT
            * shifts@.len() * days@.len(),
        names_distinct(old(employees).deep_view()) && labels_distinct(days.deep_view())
            && days@.len() <= MAX_SHIFTS ==> (result is Ok <==> (days@.len() == 0
            || old(employees)@.len() >= STAFF_PER_SHIFT * shifts@.len())),
        names_distinct(old(employees).deep_view()) && labels_distinct(days.deep_view())
            && amply_staffed(old(employees)@.len(), days@.len(), shifts@.len()) ==> result is Ok,
{
    let ghost start = employees.deep_view();
    let ghost seed0 = source.seed;
    proof {
        lemma_cleared(start);
        if days@.len() <= MAX_SHIFTS {
            lemma_short_week_staffing(start.len(), days@.len() as nat, shifts@.len() as nat);
        }
        if amply_staffed(start.len(), days@.len(), shifts@.len()) {
            lemma_ample_is_staffed(start.len(), days@.len() as nat, shifts@.len() as nat);
        }
    }
    clear_schedule_from_employees(employees);
    if is_understaffed(employees.len(), days.len(), shifts.len()) {
        return Err(
            Infeasible::Understaffed {
                employees: employees.len(),
                days: days.len(),
                shifts: shifts.len(),
            },
        );
    }
    let mut made: u64 = 0;
    let mut left: u32 = max_restarts;
    loop
        invariant
            start == old(employees).deep_view(),
            seed0 == old(source).seed,
            made + left == max_restarts,
            !understaffed(start.len(), days@.len(), shifts@.len()),
            same_people(employees.deep_view(), start),
            cleared(employees.deep_view()) == cleared(start),
            generate(start, seed0, days.deep_view(), shifts.deep_view(), max_restarts as nat)
                == attempts(
                employees.deep_view(),
                source.seed,
                days.deep_view(),
                shifts.deep_view(),
                left as nat,
                made as nat,
            ),
        decreases left,
    {
        let ghost before = employees.deep_view();
        proof {
            lemma_cleared(before);
            lemma_same_people_same_names(cleared(before), start);
            if days@.len() <= MAX_SHIFTS {
                lemma_cleared_is_fresh(before, days.deep_view());
            }
            lemma_cleared_has_room(before, days.deep_view(), shifts@.len() as nat);
        }
        clear_schedule_from_employees(employees);
        let outcome = plan_week(employees, days, shifts, source);
        let ghost after = employees.deep_view();
        proof {
            lemma_cleared(after);
            assert(cleared(after) =~= cleared(start));
        }
        match outcome {
            Ok(schedule) => {
                proof {
                    assert(histories_listed(
                        after,
                        cleared(before),
                        schedule.deep_view().cells,
                        days.deep_view(),
                        shifts.deep_view(),
                    ));
                    if names_distinct(start) {
                        lemma_same_people_same_names(after, start);
                        lemma_staffed_week_names_apart(
                            after,
                            schedule.deep_view().cells,
                            days.deep_view(),
                            shifts.deep_view(),
                        );
                    }
                }
                return Ok(schedule);
            },
            Err(stall) => {
                if left == 0 {
                    clear_schedule_from_employees(employees);
                    return Err(
                        Infeasible::CellShort {
                            day: stall.day,
                            shift: stall.shift,
                            assigned: stall.assigned,
                            attempts: made + 1,
                        },
                    );
                }
                left -= 1;
                made += 1;
            },
        }
    }
}

} // verus!
