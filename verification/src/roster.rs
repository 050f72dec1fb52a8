use crate::employee::{Employee, EmployeeView};
use vstd::prelude::*;

verus! {

/// Every record of the roster is well-formed.
pub open spec fn roster_wf(roster: Seq<EmployeeView>) -> bool {
    forall|i: int| 0 <= i < roster.len() ==> (#[trigger] roster[i]).wf()
}

/// The two rosters list the same people at the same positions.
pub open spec fn same_people(a: Seq<EmployeeView>, b: Seq<EmployeeView>) -> bool {
    &&& a.len() == b.len()
    &&& forall|i: int| 0 <= i < a.len() ==> (#[trigger] a[i]).same_person(b[i])
}

/// No two members of the roster share a display name.
pub open spec fn names_distinct(roster: Seq<EmployeeView>) -> bool {
    forall|i: int, j: int|
        0 <= i < j < roster.len() ==> (#[trigger] roster[i]).name != (#[trigger] roster[j]).name
}

/// The roster with every workload at zero and every history empty.
pub open spec fn cleared(roster: Seq<EmployeeView>) -> Seq<EmployeeView> {
    Seq::new(roster.len(), |i: int| roster[i].rested())
}

/// Takes every granted shift back: afterwards each employee has workload zero
/// and an empty history, and is otherwise who they were.
pub fn clear_schedule_from_employees(employees: &mut Vec<Employee>)
    ensures
        final(employees).deep_view() == cleared(old(employees).deep_view()),
{
    let ghost before = employees.deep_view();
    let n = employees.len();
    let mut i: usize = 0;
    while i < n
        invariant
            i <= n,
            n == employees.len(),
            before.len() == n,
            forall|j: int| 0 <= j < i ==> (#[trigger] employees@[j]).deep_view() == before[j].rested(),
            forall|j: int| i <= j < n ==> (#[trigger] employees@[j]).deep_view() == before[j],
        decreases n - i,
    {
        employees[i].reset();
        i += 1;
    }
    assert(employees.deep_view() =~= cleared(before));
}

/// Rosters that list the same people agree on whether two of them share a
/// display name.
pub proof fn lemma_same_people_same_names(a: Seq<EmployeeView>, b: Seq<EmployeeView>)
    requires
        same_people(a, b),
    ensures
        names_distinct(a) <==> names_distinct(b),
{
    if names_distinct(a) {
        assert forall|i: int, j: int| 0 <= i < j < b.len() implies (#[trigger] b[i]).name != (
        #[trigger] b[j]).name by {
            assert(a[i].same_person(b[i]));
            assert(a[j].same_person(b[j]));
        }
    }
    if names_distinct(b) {
        assert forall|i: int, j: int| 0 <= i < j < a.len() implies (#[trigger] a[i]).name != (
        #[trigger] a[j]).name by {
            assert(a[i].same_person(b[i]));
            assert(a[j].same_person(b[j]));
        }
    }
}

/// A cleared roster is well-formed and lists the same people.
pub proof fn lemma_cleared(roster: Seq<EmployeeView>)
    ensures
        roster_wf(cleared(roster)),
        same_people(cleared(roster), roster),
        cleared(cleared(roster)) == cleared(roster),
        forall|i: int|
            0 <= i < roster.len() ==> (#[trigger] cleared(roster)[i]).days_worked == 0 && cleared(
                roster,
            )[i].history.len() == 0,
{
    assert(cleared(cleared(roster)) =~= cleared(roster));
}

} // verus!
