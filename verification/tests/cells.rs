use rust_scheduler::cell::{assign_in_order, eligible_pool, fill_shift, is_listed};
use rust_scheduler::day::{plan_day, staff_names};
use rust_scheduler::employee::{Employee, Tier};
use rust_scheduler::engine::is_understaffed;
use rust_scheduler::schedule::copy_labels;
use rust_scheduler::shuffle::ShuffleSource;

fn person(name: &str, first: &str, second: &str) -> Employee {
    Employee::new(format!("id-{}", name), name.to_string(), first.to_string(), second.to_string())
}

fn text(s: &str) -> String {
    s.to_string()
}

fn crew() -> Vec<Employee> {
    vec![
        person("ann", "Evening", "Morning"),
        person("bob", "Morning", "Evening"),
        person("cid", "Afternoon", "Afternoon"),
        person("dee", "Morning", "Afternoon"),
        person("eve", "Morning", "Morning"),
    ]
}

#[test]
fn a_new_employee_has_nothing_granted() {
    let e = person("ann", "Evening", "Morning");
    assert_eq!(e.id, "id-ann");
    assert_eq!(e.name, "ann");
    assert_eq!(e.prefs, [text("Evening"), text("Morning")]);
    assert_eq!(e.days_worked, 0);
    assert!(e.shifts_assigned.is_empty());
}

#[test]
fn granting_counts_and_records_the_shift() {
    let mut e = person("ann", "Evening", "Morning");
    e.grant(&text("Monday"), &text("Evening"));
    e.grant(&text("Tuesday"), &text("Morning"));
    assert_eq!(e.days_worked, 2);
    assert_eq!(
        e.shifts_assigned,
        vec![(text("Monday"), text("Evening")), (text("Tuesday"), text("Morning"))]
    );
    assert!(e.is_busy_on(&text("Monday")));
    assert!(e.is_busy_on(&text("Tuesday")));
    assert!(!e.is_busy_on(&text("monday")));
    assert!(!e.is_busy_on(&text("Evening")));
    e.reset();
    assert_eq!(e.days_worked, 0);
    assert!(e.shifts_assigned.is_empty());
    assert_eq!(e.name, "ann");
}

#[test]
fn availability_ends_with_the_day_or_the_limit() {
    let mut e = person("ann", "Evening", "Morning");
    assert!(e.is_available(&text("Monday")));
    e.grant(&text("Monday"), &text("Evening"));
    assert!(!e.is_available(&text("Monday")));
    assert!(e.is_available(&text("Tuesday")));
    for day in ["Tuesday", "Wednesday", "Thursday"] {
        e.grant(&text(day), &text("Evening"));
    }
    assert_eq!(e.days_worked, 4);
    assert!(e.is_available(&text("Friday")));
    e.grant(&text("Friday"), &text("Evening"));
    assert_eq!(e.days_worked, 5);
    assert!(!e.is_available(&text("Saturday")));
}

#[test]
fn preferences_are_matched_exactly() {
    let e = person("ann", "Evening", "Morning");
    assert!(e.wants(Tier::FirstChoice, &text("Evening")));
    assert!(!e.wants(Tier::FirstChoice, &text("Morning")));
    assert!(!e.wants(Tier::FirstChoice, &text("evening")));
    assert!(!e.wants(Tier::FirstChoice, &text("Evening ")));
    assert!(e.wants(Tier::SecondChoice, &text("Morning")));
    assert!(!e.wants(Tier::SecondChoice, &text("Evening")));
    assert!(e.wants(Tier::Fallback, &text("Night")));
    assert!(e.is_eligible(Tier::FirstChoice, &text("Monday"), &text("Evening")));
    assert!(!e.is_eligible(Tier::SecondChoice, &text("Monday"), &text("Evening")));
}

#[test]
fn the_first_round_takes_first_preferences_in_order() {
    let mut staff = crew();
    let mut cell: Vec<usize> = Vec::new();
    let order = vec![4, 0, 3, 1, 2];
    assign_in_order(&mut staff, &mut cell, &text("Monday"), &text("Morning"), &order, Tier::FirstChoice);
    assert_eq!(cell, vec![4, 3]);
    assert_eq!(staff[4].shifts_assigned, vec![(text("Monday"), text("Morning"))]);
    assert_eq!(staff[3].shifts_assigned, vec![(text("Monday"), text("Morning"))]);
    assert_eq!(staff[4].days_worked, 1);
    assert_eq!(staff[1].days_worked, 0);
    assert_eq!(staff[0].days_worked, 0);
}

#[test]
fn the_second_round_takes_second_preferences() {
    let mut staff = crew();
    let mut cell: Vec<usize> = Vec::new();
    let order = vec![0, 1, 2, 3, 4];
    assign_in_order(&mut staff, &mut cell, &text("Monday"), &text("Evening"), &order, Tier::FirstChoice);
    assert_eq!(cell, vec![0]);
    assign_in_order(&mut staff, &mut cell, &text("Monday"), &text("Evening"), &order, Tier::SecondChoice);
    assert_eq!(cell, vec![0, 1]);
    assert_eq!(staff[1].shifts_assigned, vec![(text("Monday"), text("Evening"))]);
}

#[test]
fn a_round_passes_over_the_busy_and_the_unknown() {
    let mut staff = crew();
    staff[1].grant(&text("Monday"), &text("Evening"));
    let mut cell: Vec<usize> = Vec::new();
    let order = vec![9, 1, 3, 3, 4];
    assign_in_order(&mut staff, &mut cell, &text("Monday"), &text("Morning"), &order, Tier::FirstChoice);
    assert_eq!(cell, vec![3, 4]);
    assert_eq!(staff[1].days_worked, 1);
    assert_eq!(staff[3].days_worked, 1);
}

#[test]
fn a_full_cell_takes_nobody() {
    let mut staff = crew();
    let mut cell: Vec<usize> = vec![0, 2];
    let order = vec![1, 3, 4];
    assign_in_order(&mut staff, &mut cell, &text("Monday"), &text("Morning"), &order, Tier::FirstChoice);
    assert_eq!(cell, vec![0, 2]);
    assert!(staff.iter().all(|e| e.days_worked == 0));
}

#[test]
fn an_employee_with_one_preference_twice_is_taken_once() {
    let mut staff = crew();
    let order = vec![4, 2, 0, 1, 3];
    let mut source = ShuffleSource::new(0);
    let cell = fill_shift(&mut staff, &text("Monday"), &text("Afternoon"), &order, &mut source);
    assert_eq!(cell, vec![2, 3]);
    assert_eq!(staff[2].days_worked, 1);
    assert_eq!(source.seed, 0);
}

#[test]
fn the_pool_holds_the_free_in_order() {
    let mut staff = crew();
    staff[0].grant(&text("Monday"), &text("Evening"));
    for day in ["Tuesday", "Wednesday", "Thursday", "Friday", "Saturday"] {
        staff[2].grant(&text(day), &text("Afternoon"));
    }
    let order = vec![4, 3, 2, 1, 0, 7];
    let pool = eligible_pool(&staff, &vec![0], &text("Monday"), &order);
    assert_eq!(pool, vec![4, 3, 1]);
    let pool = eligible_pool(&staff, &vec![0], &text("Sunday"), &order);
    assert_eq!(pool, vec![4, 3, 1]);
    let pool = eligible_pool(&staff, &Vec::new(), &text("Sunday"), &order);
    assert_eq!(pool, vec![4, 3, 1, 0]);
}

#[test]
fn the_pool_leaves_out_a_name_the_cell_lists() {
    let staff = vec![
        person("ann", "Evening", "Morning"),
        person("ann", "Morning", "Evening"),
        person("bob", "Morning", "Evening"),
    ];
    assert!(is_listed(&staff, &vec![0], &text("ann")));
    assert!(!is_listed(&staff, &vec![0], &text("bob")));
    assert!(!is_listed(&staff, &Vec::new(), &text("ann")));
    assert!(!is_listed(&staff, &vec![5], &text("ann")));
    let pool = eligible_pool(&staff, &vec![0], &text("Monday"), &vec![0, 1, 2]);
    assert_eq!(pool, vec![2]);
}

#[test]
fn the_last_round_takes_anyone_free() {
    let mut staff = vec![
        person("ann", "Evening", "Evening"),
        person("bob", "Evening", "Evening"),
        person("cid", "Evening", "Evening"),
    ];
    staff[1].grant(&text("Monday"), &text("Evening"));
    let order = vec![0, 1, 2];
    let mut source = ShuffleSource::new(77);
    let mut cell = fill_shift(&mut staff, &text("Monday"), &text("Morning"), &order, &mut source);
    cell.sort();
    assert_eq!(cell, vec![0, 2]);
    assert_eq!(source.seed, 78);
    assert_eq!(staff[0].shifts_assigned, vec![(text("Monday"), text("Morning"))]);
    assert_eq!(staff[1].shifts_assigned, vec![(text("Monday"), text("Evening"))]);
    assert_eq!(staff[2].shifts_assigned, vec![(text("Monday"), text("Morning"))]);
}

#[test]
fn preferences_come_before_the_last_round() {
    let mut staff = crew();
    let order = vec![2, 0, 1, 3, 4];
    let mut source = ShuffleSource::new(5);
    let cell = fill_shift(&mut staff, &text("Monday"), &text("Evening"), &order, &mut source);
    assert_eq!(cell, vec![0, 1]);
    assert_eq!(source.seed, 5);
    let mut source = ShuffleSource::new(5);
    let cell = fill_shift(&mut staff, &text("Monday"), &text("Afternoon"), &order, &mut source);
    assert_eq!(cell, vec![2, 3]);
    let cell = fill_shift(&mut staff, &text("Monday"), &text("Morning"), &order, &mut source);
    assert_eq!(cell, vec![4]);
    assert_eq!(source.seed, 6);
}

#[test]
fn names_are_looked_up_by_position() {
    let staff = crew();
    assert_eq!(staff_names(&staff, &vec![3, 0]), vec![text("dee"), text("ann")]);
    assert!(staff_names(&staff, &Vec::new()).is_empty());
}

#[test]
fn a_day_is_planned_shift_by_shift() {
    let mut staff = crew();
    staff.push(person("fay", "Evening", "Afternoon"));
    let shifts = vec![text("Morning"), text("Afternoon"), text("Evening")];
    let mut source = ShuffleSource::new(42);
    let cells = plan_day(&mut staff, &text("Monday"), &shifts, &mut source).ok().unwrap();
    assert_eq!(cells.len(), 3);
    let mut all: Vec<String> = cells.iter().flatten().cloned().collect();
    all.sort();
    assert_eq!(all, vec!["ann", "bob", "cid", "dee", "eve", "fay"]);
    for e in &staff {
        assert_eq!(e.days_worked, 1);
        assert_eq!(e.shifts_assigned[0].0, "Monday");
    }
    assert!(cells[1].contains(&text("cid")));
}

#[test]
fn a_day_stops_where_the_free_run_out() {
    let mut staff = crew();
    let shifts = vec![text("Morning"), text("Afternoon"), text("Evening")];
    let mut source = ShuffleSource::new(42);
    let short = plan_day(&mut staff, &text("Monday"), &shifts, &mut source).err().unwrap();
    assert_eq!((short.shift, short.assigned), (2, 1));
    assert!(staff.iter().all(|e| e.days_worked == 1));
}

#[test]
fn understaffing_is_a_matter_of_heads_and_of_workloads() {
    assert!(is_understaffed(0, 1, 1));
    assert!(is_understaffed(1, 1, 1));
    assert!(!is_understaffed(2, 1, 1));
    assert!(!is_understaffed(0, 0, 3));
    assert!(!is_understaffed(0, 7, 0));
    assert!(is_understaffed(8, 7, 3));
    assert!(!is_understaffed(9, 7, 3));
    assert!(!is_understaffed(2, 5, 1));
    assert!(is_understaffed(2, 6, 1));
    assert!(!is_understaffed(3, 1, 3));
    assert!(is_understaffed(usize::MAX, usize::MAX, usize::MAX));
    assert!(!is_understaffed(usize::MAX, 1, 1));
}

#[test]
fn labels_are_copied_as_they_are() {
    let labels = vec![text("Monday"), text(""), text("Monday")];
    assert_eq!(copy_labels(&labels), labels);
}
