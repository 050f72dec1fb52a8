use vstd::prelude::*;

verus! {

/// A finished schedule: the labels of the grid, and for each day and each
/// shift, in the order of the grid, the display names of those who staff the
/// cell, in the order in which they were taken.
#[derive(Clone, Debug)]
pub struct Schedule {
    pub days: Vec<String>,
    pub shifts: Vec<String>,
    pub cells: Vec<Vec<Vec<String>>>,
}

/// The mathematical content of a [`Schedule`].
pub struct ScheduleView {
    pub days: Seq<Seq<char>>,
    pub shifts: Seq<Seq<char>>,
    pub cells: Seq<Seq<Seq<Seq<char>>>>,
}

impl DeepView for Schedule {
    type V = ScheduleView;

    open spec fn deep_view(&self) -> ScheduleView {
        ScheduleView {
            days: self.days.deep_view(),
            shifts: self.shifts.deep_view(),
            cells: self.cells.deep_view(),
        }
    }
}

/// Why no schedule could be made.
#[derive(Clone, Copy, Debug)]
pub enum Infeasible {
    /// The roster cannot cover the grid, whatever the order of assignment:
    /// no pass was tried.
    Understaffed { employees: usize, days: usize, shifts: usize },
    /// Every pass that was allowed stopped at a cell that stayed short. The
    /// cell is that of the last pass, with the number of employees it got;
    /// `attempts` counts the passes.
    CellShort { day: usize, shift: usize, assigned: usize, attempts: u64 },
}

/// Copies a list of labels.
pub fn copy_labels(labels: &Vec<String>) -> (copy: Vec<String>)
    ensures
        copy.deep_view() == labels.deep_view(),
{
    let mut copy: Vec<String> = Vec::new();
    let mut k: usize = 0;
    while k < labels.len()
        invariant
            k <= labels.len(),
            copy@.len() == k,
            forall|j: int| 0 <= j < k ==> (#[trigger] copy@[j])@ == labels@[j]@,
        decreases labels.len() - k,
    {
        copy.push(labels[k].clone());
        k += 1;
    }
    assert(copy.deep_view() =~= labels.deep_view());
    copy
}

} // verus!
