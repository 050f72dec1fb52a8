use vstd::prelude::*;

verus! {

/// The most shifts one employee may be given in a planning pass.
pub const MAX_SHIFTS: u32 = 5;

/// The round of a cell's filling in which an employee is considered: the
/// rounds for a first and a second preference, and the one that takes anyone
/// who is free.
#[derive(Clone, Copy, Debug)]
pub enum Tier {
    FirstChoice,
    SecondChoice,
    Fallback,
}

/// One member of the roster: who they are, which two shifts they would
/// rather work, and what the current planning pass has given them so far.
#[derive(Clone, Debug)]
pub struct Employee {
    pub id: String,
    pub name: String,
    pub prefs: [String; 2],
    pub days_worked: u32,
    pub shifts_assigned: Vec<(String, String)>,
}

/// The mathematical content of an [`Employee`].
pub struct EmployeeView {
    pub id: Seq<char>,
    pub name: Seq<char>,
    pub first_choice: Seq<char>,
    pub second_choice: Seq<char>,
    pub days_worked: nat,
    pub history: Seq<(Seq<char>, Seq<char>)>,
}

impl DeepView for Employee {
    type V = EmployeeView;

    open spec fn deep_view(&self) -> EmployeeView {
        EmployeeView {
            id: self.id@,
            name: self.name@,
            first_choice: self.prefs@[0]@,
            second_choice: self.prefs@[1]@,
            days_worked: self.days_worked as nat,
            history: self.shifts_assigned.deep_view(),
        }
    }
}

impl EmployeeView {
    /// Some entry of the history falls on `day`.
    pub open spec fn busy_on(self, day: Seq<char>) -> bool {
        exists|k: int| 0 <= k < self.history.len() && (#[trigger] self.history[k]).0 == day
    }

    /// The employee may still be given a shift on `day`.
    pub open spec fn available(self, day: Seq<char>) -> bool {
        self.days_worked < MAX_SHIFTS && !self.busy_on(day)
    }

    /// The round `tier` would give the employee the shift named `shift`.
    pub open spec fn wants(self, tier: Tier, shift: Seq<char>) -> bool {
        match tier {
            Tier::FirstChoice => self.first_choice == shift,
            Tier::SecondChoice => self.second_choice == shift,
            Tier::Fallback => true,
        }
    }

    /// The employee can be given `shift` on `day` in the round `tier`.
    pub open spec fn eligible(self, tier: Tier, day: Seq<char>, shift: Seq<char>) -> bool {
        self.available(day) && self.wants(tier, shift)
    }

    /// The history holds the pair of `day` and `shift`.
    pub open spec fn works(self, day: Seq<char>, shift: Seq<char>) -> bool {
        exists|k: int| 0 <= k < self.history.len() && #[trigger] self.history[k] == (day, shift)
    }

    /// The workload counts the history, stays within the limit, and no two
    /// entries of the history fall on one day.
    pub open spec fn wf(self) -> bool {
        &&& self.days_worked == self.history.len()
        &&& self.days_worked <= MAX_SHIFTS
        &&& forall|j: int, k: int|
            0 <= j < k < self.history.len() ==> (#[trigger] self.history[j]).0 != (
            #[trigger] self.history[k]).0
    }

    /// `other` is the same person: identity, name and preferences agree.
    pub open spec fn same_person(self, other: EmployeeView) -> bool {
        &&& self.id == other.id
        &&& self.name == other.name
        &&& self.first_choice == other.first_choice
        &&& self.second_choice == other.second_choice
    }

    /// The record is `earlier` with shifts added, if any: the same person,
    /// whose history begins with the history of `earlier`.
    pub open spec fn extends(self, earlier: EmployeeView) -> bool {
        &&& self.same_person(earlier)
        &&& earlier.history.len() <= self.history.len()
        &&& earlier.days_worked <= self.days_worked
        &&& forall|k: int|
            0 <= k < earlier.history.len() ==> (#[trigger] self.history[k]) == earlier.history[k]
    }

    /// The record is `earlier` as it was, or `earlier` granted one shift on
    /// `day`.
    pub open spec fn at_most_one_more(self, earlier: EmployeeView, day: Seq<char>) -> bool {
        self == earlier || (self.history.len() == earlier.history.len() + 1 && self
            == earlier.grant(day, self.history.last().1))
    }

    /// The record after one more shift has been granted.
    pub open spec fn grant(self, day: Seq<char>, shift: Seq<char>) -> EmployeeView {
        EmployeeView {
            days_worked: self.days_worked + 1,
            history: self.history.push((day, shift)),
            ..self
        }
    }

    /// The record with nothing granted.
    pub open spec fn rested(self) -> EmployeeView {
        EmployeeView { days_worked: 0, history: Seq::empty(), ..self }
    }
}

impl Employee {
    /// A new member of the roster, with nothing granted yet.
    pub fn new(id: String, name: String, first_choice: String, second_choice: String) -> (e: Employee)
        ensures
            e.deep_view().id == id@,
            e.deep_view().name == name@,
            e.deep_view().first_choice == first_choice@,
            e.deep_view().second_choice == second_choice@,
            e.deep_view().days_worked == 0,
            e.deep_view().history == Seq::<(Seq<char>, Seq<char>)>::empty(),
    {
        Employee {
            id,
            name,
            prefs: [first_choice, second_choice],
            days_worked: 0,
            shifts_assigned: Vec::new(),
        }
    }

    /// Whether the employee already has a shift on `day`. Days are compared
    /// letter for letter.
    pub fn is_busy_on(&self, day: &String) -> (busy: bool)
        ensures
            busy == self.deep_view().busy_on(day@),
    {
        let mut k: usize = 0;
        while k < self.shifts_assigned.len()
            invariant
                k <= self.shifts_assigned.len(),
                forall|j: int| 0 <= j < k ==> (#[trigger] self.deep_view().history[j]).0 != day@,
            decreases self.shifts_assigned.len() - k,
        {
            if self.shifts_assigned[k].0 == *day {
                assert(self.deep_view().history[k as int].0 == day@);
                return true;
            }
            k += 1;
        }
        false
    }

    /// Whether the employee may still be given a shift on `day`.
    pub fn is_available(&self, day: &String) -> (free: bool)
        ensures
            free == self.deep_view().available(day@),
    {
        self.days_worked < MAX_SHIFTS && !self.is_busy_on(day)
    }

    /// Whether the round `tier` would give the employee the shift `shift`.
    pub fn wants(&self, tier: Tier, shift: &String) -> (wanted: bool)
        ensures
            wanted == self.deep_view().wants(tier, shift@),
    {
        match tier {
            Tier::FirstChoice => self.prefs[0] == *shift,
            Tier::SecondChoice => self.prefs[1] == *shift,
            Tier::Fallback => true,
        }
    }

    /// Whether the employee can be given `shift` on `day` in the round `tier`.
    pub fn is_eligible(&self, tier: Tier, day: &String, shift: &String) -> (ok: bool)
        ensures
            ok == self.deep_view().eligible(tier, day@, shift@),
    {
        self.is_available(day) && self.wants(tier, shift)
    }

    /// Grants the employee `shift` on `day`: the workload goes up by one and
    /// the pair joins the end of the history. The employee must be free on
    /// that day and below the limit of the workload.
    pub fn grant(&mut self, day: &String, shift: &String)
        requires
            old(self).deep_view().available(day@),
        ensures
            final(self).deep_view() == old(self).deep_view().grant(day@, shift@),
            old(self).deep_view().wf() ==> final(self).deep_view().wf(),
    {
        proof {
            if self.deep_view().wf() {
                lemma_grant_keeps_wf(self.deep_view(), day@, shift@);
            }
        }
        self.days_worked += 1;
        self.shifts_assigned.push((day.clone(), shift.clone()));
        assert(self.shifts_assigned.deep_view() =~= old(self).shifts_assigned.deep_view().push(
            (day@, shift@),
        ));
    }

    /// Takes back whatever the employee has been granted.
    pub fn reset(&mut self)
        ensures
            final(self).deep_view() == old(self).deep_view().rested(),
            final(self).deep_view().wf(),
    {
        self.days_worked = 0;
        self.shifts_assigned.clear();
        assert(self.shifts_assigned.deep_view() =~= Seq::empty());
    }
}

/// Whoever is granted a shift on `day` is busy on that day and works that
/// shift.
pub proof fn lemma_grant_books(e: EmployeeView, day: Seq<char>, shift: Seq<char>)
    ensures
        e.grant(day, shift).works(day, shift),
        e.grant(day, shift).busy_on(day),
        e.grant(day, shift).same_person(e),
        e.grant(day, shift).extends(e),
{
    let g = e.grant(day, shift);
    assert(g.history[e.history.len() as int] == (day, shift));
}

/// A record that is another with at most one shift more, on `day`, extends
/// it, and is busy on any other day just when the other is.
pub proof fn lemma_one_more(later: EmployeeView, earlier: EmployeeView, day: Seq<char>)
    requires
        later.at_most_one_more(earlier, day),
    ensures
        later.extends(earlier),
        later.days_worked <= earlier.days_worked + 1,
        forall|other: Seq<char>|
            other != day ==> (#[trigger] later.busy_on(other) <==> earlier.busy_on(other)),
{
    if later != earlier {
        let shift = later.history.last().1;
        lemma_grant_books(earlier, day, shift);
        assert forall|other: Seq<char>| other != day implies (#[trigger] later.busy_on(other)
            <==> earlier.busy_on(other)) by {
            if later.busy_on(other) {
                let k = choose|k: int|
                    0 <= k < later.history.len() && (#[trigger] later.history[k]).0 == other;
                assert(earlier.history[k].0 == other);
            }
            if earlier.busy_on(other) {
                let k = choose|k: int|
                    0 <= k < earlier.history.len() && (#[trigger] earlier.history[k]).0 == other;
                assert(later.history[k].0 == other);
            }
        }
    }
}

/// A record that extends another works every shift the other works.
pub proof fn lemma_extends_keeps_work(
    later: EmployeeView,
    earlier: EmployeeView,
    day: Seq<char>,
    shift: Seq<char>,
)
    requires
        later.extends(earlier),
        earlier.works(day, shift),
    ensures
        later.works(day, shift),
{
    let k = choose|k: int| 0 <= k < earlier.history.len() && #[trigger] earlier.history[k] == (
        day,
        shift,
    );
    assert(later.history[k] == (day, shift));
}

/// A well-formed record that is free on `day` stays well-formed when it is
/// granted a shift on that day.
pub proof fn lemma_grant_keeps_wf(e: EmployeeView, day: Seq<char>, shift: Seq<char>)
    requires
        e.wf(),
        e.available(day),
    ensures
        e.grant(day, shift).wf(),
{
    let g = e.grant(day, shift);
    let last = e.history.len() as int;
    assert(g.history[last] == (day, shift));
    assert forall|j: int, k: int| 0 <= j < k < g.history.len() implies (#[trigger] g.history[j]).0
        != (#[trigger] g.history[k]).0 by {
        if k == last {
            assert(e.history[j].0 != day);
        } else {
            assert(g.history[j] == e.history[j]);
            assert(g.history[k] == e.history[k]);
        }
    }
}

} // verus!
