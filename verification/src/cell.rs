use crate::employee::{lemma_grant_keeps_wf, Employee, EmployeeView, Tier};
use crate::roster::{roster_wf, same_people};
use crate::shuffle::{next_seed, rearranged, seeded_shuffle, ShuffleSource};
use vstd::prelude::*;

verus! {

/// The number of employees every cell of the grid must hold.
pub const STAFF_PER_SHIFT: usize = 2;

/// A cell in the course of being filled: the roster as it stands, and the
/// positions of the employees the cell holds, in the order they were taken.
pub struct Filling {
    pub roster: Seq<EmployeeView>,
    pub staff: Seq<usize>,
}

impl Filling {
    /// The filling after the employee at position `i` has been taken for
    /// `shift` on `day`.
    pub open spec fn take(self, i: usize, day: Seq<char>, shift: Seq<char>) -> Filling {
        Filling {
            roster: self.roster.update(i as int, self.roster[i as int].grant(day, shift)),
            staff: self.staff.push(i),
        }
    }

    /// The employee at position `i` can be taken in the round `tier`.
    pub open spec fn can_take(self, i: usize, tier: Tier, day: Seq<char>, shift: Seq<char>) -> bool {
        i < self.roster.len() && self.roster[i as int].eligible(tier, day, shift)
    }

    /// One of the staff bears the display name `name`.
    pub open spec fn lists(self, name: Seq<char>) -> bool {
        exists|k: int|
            0 <= k < self.staff.len() && (#[trigger] self.staff[k]) < self.roster.len()
                && self.roster[self.staff[k] as int].name == name
    }

    /// The employee at position `i` belongs to the pool of the last round:
    /// free on `day`, with room in the workload, and with a name that the
    /// cell does not list yet.
    pub open spec fn in_pool(self, i: usize, day: Seq<char>) -> bool {
        &&& i < self.roster.len()
        &&& self.roster[i as int].available(day)
        &&& !self.lists(self.roster[i as int].name)
    }

    /// [`Filling::in_pool`] as a predicate on positions.
    pub open spec fn pool_rule(self, day: Seq<char>) -> spec_fn(usize) -> bool {
        |i: usize| self.in_pool(i, day)
    }

    /// The pool of the last round: the positions of `order` that belong to
    /// it, in the order of `order`.
    pub open spec fn pool(self, day: Seq<char>, order: Seq<usize>) -> Seq<usize> {
        order.filter(self.pool_rule(day))
    }

    /// The cell holds all the employees it needs.
    pub open spec fn full(self) -> bool {
        self.staff.len() >= STAFF_PER_SHIFT
    }

    /// What the filling has become with respect to `start`, the roster when
    /// the cell was still empty: the staff are different employees, each was
    /// free on `day` and has been granted exactly this shift, and nobody else
    /// has changed.
    pub open spec fn grown_from(
        self,
        start: Seq<EmployeeView>,
        day: Seq<char>,
        shift: Seq<char>,
    ) -> bool {
        &&& self.roster.len() == start.len()
        &&& self.staff.no_duplicates()
        &&& forall|k: int| 0 <= k < self.staff.len() ==> (#[trigger] self.staff[k]) < start.len()
        &&& forall|i: usize|
            i < start.len() ==> (#[trigger] self.roster[i as int]) == (if self.staff.contains(i) {
                start[i as int].grant(day, shift)
            } else {
                start[i as int]
            })
        &&& forall|k: int|
            0 <= k < self.staff.len() ==> start[(#[trigger] self.staff[k]) as int].available(day)
    }
}

/// The filling made of a roster and of a cell's staff.
pub open spec fn filling(roster: Seq<EmployeeView>, staff: Seq<usize>) -> Filling {
    Filling { roster, staff }
}

/// One round over `order`, from position `from` on: each employee met who
/// can be taken in the round `tier` is taken, until the cell is full or the
/// order is at its end.
pub open spec fn scan(
    filling: Filling,
    day: Seq<char>,
    shift: Seq<char>,
    order: Seq<usize>,
    tier: Tier,
    from: int,
) -> Filling
    decreases order.len() - from,
{
    if 0 <= from < order.len() && !filling.full() {
        if filling.can_take(order[from], tier, day, shift) {
            scan(filling.take(order[from], day, shift), day, shift, order, tier, from + 1)
        } else {
            scan(filling, day, shift, order, tier, from + 1)
        }
    } else {
        filling
    }
}

/// Taking an employee who can be taken keeps a filling grown from its start.
pub proof fn lemma_take_grows(
    filling: Filling,
    start: Seq<EmployeeView>,
    i: usize,
    tier: Tier,
    day: Seq<char>,
    shift: Seq<char>,
)
    requires
        filling.grown_from(start, day, shift),
        filling.can_take(i, tier, day, shift),
    ensures
        filling.take(i, day, shift).grown_from(start, day, shift),
        !filling.staff.contains(i),
        filling.roster[i as int] == start[i as int],
        roster_wf(filling.roster) ==> roster_wf(filling.take(i, day, shift).roster),
{
    let next = filling.take(i, day, shift);
    if filling.staff.contains(i) {
        let e = start[i as int];
        assert(filling.roster[i as int] == e.grant(day, shift));
        assert(e.grant(day, shift).history[e.history.len() as int].0 == day);
        assert(e.grant(day, shift).busy_on(day));
    }
    assert(next.staff.no_duplicates()) by {
        assert forall|a: int, b: int|
            0 <= a < next.staff.len() && 0 <= b < next.staff.len() && a != b implies next.staff[a]
            != next.staff[b] by {
            if a < filling.staff.len() {
                assert(filling.staff.contains(filling.staff[a]));
            }
            if b < filling.staff.len() {
                assert(filling.staff.contains(filling.staff[b]));
            }
        }
    }
    assert forall|j: usize| j < start.len() implies (#[trigger] next.roster[j as int]) == (
    if next.staff.contains(j) {
        start[j as int].grant(day, shift)
    } else {
        start[j as int]
    }) by {
        if j == i {
            assert(next.staff[filling.staff.len() as int] == i);
        } else {
            if next.staff.contains(j) {
                let k = choose|k: int| 0 <= k < next.staff.len() && next.staff[k] == j;
                assert(filling.staff[k] == j);
            }
            if filling.staff.contains(j) {
                let k = choose|k: int| 0 <= k < filling.staff.len() && filling.staff[k] == j;
                assert(next.staff[k] == j);
            }
        }
    }
    if roster_wf(filling.roster) {
        lemma_grant_keeps_wf(filling.roster[i as int], day, shift);
    }
}

/// What one round does to any filling: the people of the roster stay who they
/// are, the staff the cell had stay where they were, and everyone the round
/// added was met in `order`, could be taken when met, and so is wanted by the
/// round. Every record is as it was or has been granted this one shift.
pub proof fn lemma_scan_takes_wanted(
    filling: Filling,
    day: Seq<char>,
    shift: Seq<char>,
    order: Seq<usize>,
    tier: Tier,
    from: int,
)
    requires
        0 <= from,
    ensures
        ({
            let out = scan(filling, day, shift, order, tier, from);
            &&& same_people(out.roster, filling.roster)
            &&& filling.staff.len() <= out.staff.len()
            &&& out.staff.len() <= STAFF_PER_SHIFT || out.staff.len() == filling.staff.len()
            &&& forall|k: int| 0 <= k < filling.staff.len() ==> out.staff[k] == filling.staff[k]
            &&& forall|k: int|
                filling.staff.len() <= k < out.staff.len() ==> {
                    &&& (#[trigger] out.staff[k]) < filling.roster.len()
                    &&& filling.roster[out.staff[k] as int].eligible(tier, day, shift)
                    &&& order.contains(out.staff[k])
                }
            &&& forall|i: int|
                0 <= i < filling.roster.len() ==> (#[trigger] out.roster[i]) == filling.roster[i]
                    || (out.roster[i] == filling.roster[i].grant(day, shift)
                    && filling.roster[i].eligible(tier, day, shift))
            &&& roster_wf(filling.roster) ==> roster_wf(out.roster)
        }),
    decreases order.len() - from,
{
    let out = scan(filling, day, shift, order, tier, from);
    if from < order.len() && !filling.full() {
        let i = order[from];
        if filling.can_take(i, tier, day, shift) {
            let next = filling.take(i, day, shift);
            let e = filling.roster[i as int];
            lemma_scan_takes_wanted(next, day, shift, order, tier, from + 1);
            assert(e.grant(day, shift).history[e.history.len() as int].0 == day);
            assert(!next.roster[i as int].available(day));
            assert(out.staff[filling.staff.len() as int] == next.staff[filling.staff.len() as int]);
            assert forall|j: int| 0 <= j < filling.roster.len() implies (
            #[trigger] out.roster[j]).same_person(filling.roster[j]) by {
                assert(out.roster[j].same_person(next.roster[j]));
            }
            assert forall|k: int| filling.staff.len() <= k < out.staff.len() implies {
                &&& (#[trigger] out.staff[k]) < filling.roster.len()
                &&& filling.roster[out.staff[k] as int].eligible(tier, day, shift)
                &&& order.contains(out.staff[k])
            } by {
                if k > filling.staff.len() {
                    assert(next.roster[out.staff[k] as int].eligible(tier, day, shift));
                }
            }
            assert forall|j: int| 0 <= j < filling.roster.len() implies (#[trigger] out.roster[j])
                == filling.roster[j] || (out.roster[j] == filling.roster[j].grant(day, shift)
                && filling.roster[j].eligible(tier, day, shift)) by {
                if j == i {
                    assert(out.roster[j] == next.roster[j]);
                } else {
                    assert(next.roster[j] == filling.roster[j]);
                }
            }
            if roster_wf(filling.roster) {
                lemma_grant_keeps_wf(e, day, shift);
                assert(roster_wf(next.roster));
            }
        } else {
            lemma_scan_takes_wanted(filling, day, shift, order, tier, from + 1);
        }
    }
}

/// What one round does to a filling that has grown from `start`: it still has
/// grown from `start`, and if the cell is still short then nobody from `from`
/// on can be taken any more.
pub proof fn lemma_scan(
    filling: Filling,
    start: Seq<EmployeeView>,
    day: Seq<char>,
    shift: Seq<char>,
    order: Seq<usize>,
    tier: Tier,
    from: int,
)
    requires
        filling.grown_from(start, day, shift),
        0 <= from,
    ensures
        ({
            let out = scan(filling, day, shift, order, tier, from);
            &&& out.grown_from(start, day, shift)
            &&& filling.staff.len() <= out.staff.len()
            &&& out.staff.len() <= STAFF_PER_SHIFT || out.staff.len() == filling.staff.len()
            &&& forall|k: int| 0 <= k < filling.staff.len() ==> out.staff[k] == filling.staff[k]
            &&& !out.full() ==> forall|k: int|
                from <= k < order.len() ==> !out.can_take(#[trigger] order[k], tier, day, shift)
        }),
    decreases order.len() - from,
{
    let out = scan(filling, day, shift, order, tier, from);
    if from < order.len() && !filling.full() {
        let i = order[from];
        if filling.can_take(i, tier, day, shift) {
            let next = filling.take(i, day, shift);
            lemma_take_grows(filling, start, i, tier, day, shift);
            lemma_scan(next, start, day, shift, order, tier, from + 1);
            assert(out.staff[filling.staff.len() as int] == next.staff[filling.staff.len() as int]);
            assert(out.staff.contains(i));
            if !out.full() {
                assert(start[i as int].grant(day, shift).history[start[i as int].history.len() as int].0
                    == day);
                assert(!out.can_take(i, tier, day, shift));
            }
        } else {
            lemma_scan(filling, start, day, shift, order, tier, from + 1);
            if !out.full() && i < start.len() {
                if filling.staff.contains(i) {
                    let k = choose|k: int| 0 <= k < filling.staff.len() && filling.staff[k] == i;
                    assert(out.staff[k] == i);
                    assert(out.staff.contains(i));
                } else if out.staff.contains(i) {
                    assert(start[i as int].grant(day, shift).history[start[i as int].history.len() as int].0
                        == day);
                }
                assert(!out.can_take(i, tier, day, shift));
            }
        }
    }
}

/// Runs one round of a cell's filling: walks `order` and takes each employee
/// who is free on `day`, has room in the workload and is wanted by the round
/// `tier`, until the cell holds its two or the order ends. A position of
/// `order` that the roster does not have is passed over.
///
/// Each employee taken is granted the shift and joins `staff`; in the rounds
/// for a preference, that preference names `shift`.
pub fn assign_in_order(
    employees: &mut Vec<Employee>,
    staff: &mut Vec<usize>,
    day: &String,
    shift: &String,
    order: &Vec<usize>,
    tier: Tier,
)
    ensures
        filling(final(employees).deep_view(), final(staff)@) == scan(
            filling(old(employees).deep_view(), old(staff)@),
            day@,
            shift@,
            order@,
            tier,
            0,
        ),
        same_people(final(employees).deep_view(), old(employees).deep_view()),
        roster_wf(old(employees).deep_view()) ==> roster_wf(final(employees).deep_view()),
        old(staff)@.len() <= final(staff)@.len(),
        forall|k: int| 0 <= k < old(staff)@.len() ==> final(staff)@[k] == old(staff)@[k],
        forall|k: int|
            old(staff)@.len() <= k < final(staff)@.len() ==> {
                &&& (#[trigger] final(staff)@[k]) < old(employees)@.len()
                &&& old(employees).deep_view()[final(staff)@[k] as int].eligible(tier, day@, shift@)
                &&& order@.contains(final(staff)@[k])
            },
{
    let ghost begin = filling(employees.deep_view(), staff@);
    let mut k: usize = 0;
    while k < order.len() && staff.len() < STAFF_PER_SHIFT
        invariant
            k <= order.len(),
            scan(begin, day@, shift@, order@, tier, 0) == scan(
                filling(employees.deep_view(), staff@),
                day@,
                shift@,
                order@,
                tier,
                k as int,
            ),
        decreases order.len() - k,
    {
        let i = order[k];
        if i < employees.len() && employees[i].is_eligible(tier, day, shift) {
            let ghost before = filling(employees.deep_view(), staff@);
            employees[i].grant(day, shift);
            staff.push(i);
            assert(filling(employees.deep_view(), staff@) == before.take(i, day@, shift@)) by {
                assert(employees.deep_view() =~= before.take(i, day@, shift@).roster);
            }
        }
        k += 1;
    }
    proof {
        lemma_scan_takes_wanted(begin, day@, shift@, order@, tier, 0);
    }
}

/// Whether one of `staff` bears the display name `name`.
pub fn is_listed(employees: &Vec<Employee>, staff: &Vec<usize>, name: &String) -> (found: bool)
    ensures
        found == filling(employees.deep_view(), staff@).lists(name@),
{
    let mut k: usize = 0;
    while k < staff.len()
        invariant
            k <= staff.len(),
            forall|j: int|
                0 <= j < k ==> !((#[trigger] staff@[j]) < employees@.len()
                    && employees.deep_view()[staff@[j] as int].name == name@),
        decreases staff.len() - k,
    {
        let i = staff[k];
        if i < employees.len() && employees[i].name == *name {
            proof {
                let cell = filling(employees.deep_view(), staff@);
                assert(cell.staff[k as int] < cell.roster.len());
                assert(cell.roster[cell.staff[k as int] as int].name == name@);
            }
            return true;
        }
        k += 1;
    }
    false
}

/// Builds the pool of the last round: the positions of `order`, in that
/// order, of the employees who are free on `day`, have room in the workload
/// and whose name the cell does not list yet.
pub fn eligible_pool(
    employees: &Vec<Employee>,
    staff: &Vec<usize>,
    day: &String,
    order: &Vec<usize>,
) -> (pool: Vec<usize>)
    ensures
        pool@ == filling(employees.deep_view(), staff@).pool(day@, order@),
{
    let ghost cell = filling(employees.deep_view(), staff@);
    let mut pool: Vec<usize> = Vec::new();
    let mut k: usize = 0;
    proof {
        reveal(Seq::filter);
        assert(order@.take(0).len() == 0);
    }
    while k < order.len()
        invariant
            k <= order.len(),
            cell == filling(employees.deep_view(), staff@),
            pool@ == order@.take(k as int).filter(cell.pool_rule(day@)),
        decreases order.len() - k,
    {
        let i = order[k];
        let ghost sofar = order@.take(k as int);
        proof {
            reveal(Seq::filter);
            assert(order@.take(k + 1).drop_last() =~= sofar);
            assert(order@.take(k + 1).last() == i);
        }
        if i < employees.len() && employees[i].is_available(day) && !is_listed(
            employees,
            staff,
            &employees[i].name,
        ) {
            pool.push(i);
        }
        k += 1;
    }
    assert(order@.take(k as int) =~= order@);
    pool
}

/// A cell after its three rounds: the roster, the staff the cell holds, and
/// the seed the source of shuffles has moved on to.
pub struct Filled {
    pub roster: Seq<EmployeeView>,
    pub staff: Seq<usize>,
    pub seed: u64,
}

/// The filling of one cell, starting empty: a round for the first preference
/// and a round for the second, both over `order`; then, if the cell is still
/// short, a round over the shuffled pool that takes anyone who is free. The
/// pool is shuffled only if that last round is run.
pub open spec fn fill(
    roster: Seq<EmployeeView>,
    day: Seq<char>,
    shift: Seq<char>,
    order: Seq<usize>,
    seed: u64,
) -> Filled {
    let first = scan(filling(roster, Seq::empty()), day, shift, order, Tier::FirstChoice, 0);
    let second = scan(first, day, shift, order, Tier::SecondChoice, 0);
    if second.full() {
        Filled { roster: second.roster, staff: second.staff, seed }
    } else {
        let pool = seeded_shuffle(seed, second.pool(day, order));
        let last = scan(second, day, shift, pool, Tier::Fallback, 0);
        Filled { roster: last.roster, staff: last.staff, seed: next_seed(seed) }
    }
}

/// If the last round leaves the cell short, the pool it was drawn from is
/// used up: no position of `order` belongs to the pool of the cell as it
/// then stands.
pub proof fn lemma_fallback_exhausts(
    second: Filling,
    start: Seq<EmployeeView>,
    day: Seq<char>,
    shift: Seq<char>,
    order: Seq<usize>,
    shuffled: Seq<usize>,
)
    requires
        second.grown_from(start, day, shift),
        rearranged(second.pool(day, order), shuffled),
    ensures
        ({
            let out = scan(second, day, shift, shuffled, Tier::Fallback, 0);
            !out.full() ==> forall|k: int|
                0 <= k < order.len() ==> !out.in_pool(#[trigger] order[k], day)
        }),
{
    let out = scan(second, day, shift, shuffled, Tier::Fallback, 0);
    lemma_scan(second, start, day, shift, shuffled, Tier::Fallback, 0);
    lemma_scan_takes_wanted(second, day, shift, shuffled, Tier::Fallback, 0);
    if !out.full() {
        assert forall|k: int| 0 <= k < order.len() implies !out.in_pool(#[trigger] order[k], day) by {
            let i = order[k];
            if out.in_pool(i, day) {
                if second.in_pool(i, day) {
                    order.lemma_filter_contains(second.pool_rule(day), k);
                    assert(second.pool(day, order).contains(i));
                    assert(shuffled.contains(i));
                    let j = choose|j: int| 0 <= j < shuffled.len() && shuffled[j] == i;
                    assert(!out.can_take(shuffled[j], Tier::Fallback, day, shift));
                } else {
                    if second.lists(second.roster[i as int].name) {
                        let m = choose|m: int|
                            0 <= m < second.staff.len() && (#[trigger] second.staff[m])
                                < second.roster.len() && second.roster[second.staff[m] as int].name
                                == second.roster[i as int].name;
                        assert(out.staff[m] == second.staff[m]);
                        assert(out.roster[out.staff[m] as int].same_person(
                            second.roster[second.staff[m] as int],
                        ));
                        assert(out.roster[i as int].same_person(second.roster[i as int]));
                        assert(out.lists(out.roster[i as int].name));
                    } else {
                        assert(!second.roster[i as int].available(day));
                        assert(out.roster[i as int] == second.roster[i as int] || out.roster[i as int]
                            == second.roster[i as int].grant(day, shift));
                        if out.roster[i as int] == second.roster[i as int].grant(day, shift) {
                            assert(second.roster[i as int].eligible(Tier::Fallback, day, shift));
                        }
                    }
                }
            }
        }
    }
}

/// Fills one cell of the grid. `order` is walked once for the first
/// preference and once for the second; if the cell is then still short, the
/// employees who are free are shuffled by `source` and taken in that order.
///
/// The staff returned are positions in the roster, in the order in which they
/// were taken: different employees, each free on `day` beforehand and granted
/// exactly this shift, while nobody else's record has changed. A cell that
/// comes back short has used up its pool.
pub fn fill_shift(
    employees: &mut Vec<Employee>,
    day: &String,
    shift: &String,
    order: &Vec<usize>,
    source: &mut ShuffleSource,
) -> (staff: Vec<usize>)
    ensures
        (Filled { roster: final(employees).deep_view(), staff: staff@, seed: final(source).seed })
            == fill(old(employees).deep_view(), day@, shift@, order@, old(source).seed),
        filling(final(employees).deep_view(), staff@).grown_from(
            old(employees).deep_view(),
            day@,
            shift@,
        ),
        same_people(final(employees).deep_view(), old(employees).deep_view()),
        roster_wf(old(employees).deep_view()) ==> roster_wf(final(employees).deep_view()),
        staff@.len() <= STAFF_PER_SHIFT,
        staff@.len() < STAFF_PER_SHIFT ==> forall|k: int|
            0 <= k < order@.len() ==> !filling(final(employees).deep_view(), staff@).in_pool(
                #[trigger] order@[k],
                day@,
            ),
{
    let ghost start = employees.deep_view();
    let ghost empty = filling(start, Seq::empty());
    let mut staff: Vec<usize> = Vec::new();
    assert(staff@ =~= Seq::empty());
    assert(empty.grown_from(start, day@, shift@));
    assign_in_order(employees, &mut staff, day, shift, order, Tier::FirstChoice);
    let ghost first = filling(employees.deep_view(), staff@);
    proof {
        lemma_scan(empty, start, day@, shift@, order@, Tier::FirstChoice, 0);
    }
    assign_in_order(employees, &mut staff, day, shift, order, Tier::SecondChoice);
    let ghost second = filling(employees.deep_view(), staff@);
    proof {
        lemma_scan(first, start, day@, shift@, order@, Tier::SecondChoice, 0);
    }
    if staff.len() < STAFF_PER_SHIFT {
        let mut pool = eligible_pool(employees, &staff, day, order);
        source.shuffle(&mut pool);
        assign_in_order(employees, &mut staff, day, shift, &pool, Tier::Fallback);
        proof {
            lemma_scan(second, start, day@, shift@, pool@, Tier::Fallback, 0);
            lemma_fallback_exhausts(second, start, day@, shift@, order@, pool@);
        }
    }
    staff
}

} // verus!
