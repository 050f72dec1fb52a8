use rust_scheduler::employee::Employee;
use rust_scheduler::engine::generate_schedule;
use rust_scheduler::roster::clear_schedule_from_employees;
use rust_scheduler::schedule::{Infeasible, Schedule};
use rust_scheduler::shuffle::ShuffleSource;
use rust_scheduler::week::plan_week;

fn employee(id: &str, name: &str, first: &str, second: &str) -> Employee {
    Employee::new(id.to_string(), name.to_string(), first.to_string(), second.to_string())
}

fn labels(items: &[&str]) -> Vec<String> {
    items.iter().map(|s| s.to_string()).collect()
}

fn week() -> Vec<String> {
    labels(&["Monday", "Tuesday", "Wednesday", "Thursday", "Friday", "Saturday", "Sunday"])
}

fn three_shifts() -> Vec<String> {
    labels(&["Morning", "Afternoon", "Evening"])
}

fn roster(n: usize) -> Vec<Employee> {
    let prefs = ["Morning", "Afternoon", "Evening"];
    (0..n)
        .map(|i| {
            employee(
                &format!("employee{}", i + 1),
                &format!("emp{}", i + 1),
                prefs[i % 3],
                prefs[(i + 1) % 3],
            )
        })
        .collect()
}

fn worked_out(id: &str, name: &str) -> Employee {
    let mut e = employee(id, name, "Morning", "Evening");
    for day in ["Monday", "Tuesday", "Wednesday", "Thursday", "Friday"] {
        e.grant(&day.to_string(), &"Morning".to_string());
    }
    e
}

fn check_schedule(schedule: &Schedule, staff: &[Employee], days: &[String], shifts: &[String]) {
    assert_eq!(schedule.days, days);
    assert_eq!(schedule.shifts, shifts);
    assert_eq!(schedule.cells.len(), days.len());
    for (d, day) in schedule.cells.iter().enumerate() {
        assert_eq!(day.len(), shifts.len());
        let mut seen: Vec<&String> = Vec::new();
        for (s, cell) in day.iter().enumerate() {
            assert_eq!(cell.len(), 2);
            assert_ne!(cell[0], cell[1]);
            for name in cell {
                assert!(!seen.contains(&name), "{} is booked twice on {}", name, days[d]);
                seen.push(name);
                let who = staff.iter().find(|e| &e.name == name).unwrap();
                assert!(who.shifts_assigned.contains(&(days[d].clone(), shifts[s].clone())));
            }
        }
    }
    let mut total = 0;
    for e in staff {
        assert!(e.days_worked <= 5);
        assert_eq!(e.days_worked as usize, e.shifts_assigned.len());
        total += e.shifts_assigned.len();
        for (k, (day, shift)) in e.shifts_assigned.iter().enumerate() {
            for (other, _) in &e.shifts_assigned[k + 1..] {
                assert_ne!(day, other);
            }
            let d = days.iter().position(|x| x == day).unwrap();
            let s = shifts.iter().position(|x| x == shift).unwrap();
            assert!(schedule.cells[d][s].contains(&e.name));
        }
    }
    assert_eq!(total, 2 * days.len() * shifts.len());
}

#[test]
fn two_employees_share_the_only_cell() {
    let mut staff = vec![
        employee("employee1", "emp1", "Morning", "Evening"),
        employee("employee2", "emp2", "Morning", "Afternoon"),
    ];
    let days = labels(&["Monday"]);
    let shifts = labels(&["Morning"]);
    let mut source = ShuffleSource::new(7);
    let schedule = generate_schedule(&mut staff, &days, &shifts, &mut source, 0).unwrap();
    let mut cell = schedule.cells[0][0].clone();
    cell.sort();
    assert_eq!(cell, vec!["emp1".to_string(), "emp2".to_string()]);
    assert_eq!(staff[0].days_worked, 1);
    assert_eq!(staff[1].days_worked, 1);
    assert_eq!(staff[0].shifts_assigned, vec![("Monday".to_string(), "Morning".to_string())]);
    assert_eq!(staff[1].shifts_assigned, vec![("Monday".to_string(), "Morning".to_string())]);
}

#[test]
fn a_single_employee_is_reported_infeasible() {
    let mut staff = vec![employee("employee1", "emp1", "Morning", "Evening")];
    let days = labels(&["Monday"]);
    let shifts = labels(&["Morning"]);
    let mut source = ShuffleSource::new(1);
    let result = generate_schedule(&mut staff, &days, &shifts, &mut source, 10);
    assert!(matches!(
        result,
        Err(Infeasible::Understaffed { employees: 1, days: 1, shifts: 1 })
    ));
    assert_eq!(staff[0].days_worked, 0);
    assert!(staff[0].shifts_assigned.is_empty());
    assert_eq!(source.seed, 1);
}

#[test]
fn an_empty_roster_is_reported_infeasible() {
    let mut staff: Vec<Employee> = Vec::new();
    let mut source = ShuffleSource::new(1);
    let result = generate_schedule(&mut staff, &week(), &three_shifts(), &mut source, 10);
    assert!(matches!(
        result,
        Err(Infeasible::Understaffed { employees: 0, days: 7, shifts: 3 })
    ));
}

#[test]
fn employees_at_the_limit_are_left_out() {
    let mut staff = vec![
        worked_out("employee1", "emp1"),
        worked_out("employee2", "emp2"),
        worked_out("employee3", "emp3"),
    ];
    let days = labels(&["Saturday"]);
    let shifts = labels(&["Morning"]);
    let mut source = ShuffleSource::new(11);
    let stall = plan_week(&mut staff, &days, &shifts, &mut source).err().unwrap();
    assert_eq!((stall.day, stall.shift, stall.assigned), (0, 0, 0));
    for e in &staff {
        assert_eq!(e.days_worked, 5);
        assert_eq!(e.shifts_assigned.len(), 5);
    }
}

#[test]
fn the_remaining_employees_fill_in_for_those_at_the_limit() {
    let mut staff = vec![
        worked_out("employee1", "emp1"),
        employee("employee2", "emp2", "Evening", "Afternoon"),
        employee("employee3", "emp3", "Evening", "Afternoon"),
    ];
    let days = labels(&["Saturday"]);
    let shifts = labels(&["Morning"]);
    let mut source = ShuffleSource::new(11);
    let schedule = plan_week(&mut staff, &days, &shifts, &mut source).ok().unwrap();
    let mut cell = schedule.cells[0][0].clone();
    cell.sort();
    assert_eq!(cell, vec!["emp2".to_string(), "emp3".to_string()]);
    assert_eq!(staff[0].days_worked, 5);
    assert_eq!(staff[1].days_worked, 1);
    assert_eq!(staff[2].days_worked, 1);
}

#[test]
fn one_employee_below_the_limit_is_not_enough() {
    let mut staff = vec![
        worked_out("employee1", "emp1"),
        worked_out("employee2", "emp2"),
        employee("employee3", "emp3", "Evening", "Afternoon"),
    ];
    let days = labels(&["Saturday"]);
    let shifts = labels(&["Morning"]);
    let mut source = ShuffleSource::new(11);
    let stall = plan_week(&mut staff, &days, &shifts, &mut source).err().unwrap();
    assert_eq!((stall.day, stall.shift, stall.assigned), (0, 0, 1));
    assert_eq!(staff[2].shifts_assigned, vec![("Saturday".to_string(), "Morning".to_string())]);
}

#[test]
fn clearing_resets_and_allows_the_same_days_again() {
    let mut staff = vec![
        employee("employee1", "emp1", "Morning", "Evening"),
        employee("employee2", "emp2", "Morning", "Afternoon"),
    ];
    let days = labels(&["Monday"]);
    let shifts = labels(&["Morning"]);
    let mut source = ShuffleSource::new(3);
    generate_schedule(&mut staff, &days, &shifts, &mut source, 0).unwrap();
    assert_eq!(staff[0].days_worked, 1);
    clear_schedule_from_employees(&mut staff);
    for e in staff.iter() {
        assert_eq!(e.days_worked, 0);
        assert!(e.shifts_assigned.is_empty());
        assert!(!e.name.is_empty());
    }
    let again = generate_schedule(&mut staff, &days, &shifts, &mut source, 0).unwrap();
    assert_eq!(again.cells[0][0].len(), 2);
    assert_eq!(staff[0].shifts_assigned, vec![("Monday".to_string(), "Morning".to_string())]);
    assert_eq!(staff[1].shifts_assigned, vec![("Monday".to_string(), "Morning".to_string())]);
}

#[test]
fn a_full_week_is_staffed_within_the_rules() {
    let days = week();
    let shifts = three_shifts();
    for seed in 0..20u64 {
        let mut staff = roster(14);
        let mut source = ShuffleSource::new(seed);
        let schedule = generate_schedule(&mut staff, &days, &shifts, &mut source, 0).unwrap();
        check_schedule(&schedule, &staff, &days, &shifts);
    }
}

#[test]
fn a_tight_roster_gives_a_valid_week_or_a_counted_failure() {
    let days = week();
    let shifts = three_shifts();
    let mut seen_ok = false;
    for seed in 0..40u64 {
        let mut staff = roster(10);
        let mut source = ShuffleSource::new(seed);
        match generate_schedule(&mut staff, &days, &shifts, &mut source, 25) {
            Ok(schedule) => {
                seen_ok = true;
                check_schedule(&schedule, &staff, &days, &shifts);
            }
            Err(Infeasible::CellShort { day, shift, assigned, attempts }) => {
                assert!(day < 7 && shift < 3 && assigned < 2);
                assert_eq!(attempts, 26);
                for e in &staff {
                    assert_eq!(e.days_worked, 0);
                    assert!(e.shifts_assigned.is_empty());
                }
            }
            Err(other) => panic!("unexpected {:?}", other),
        }
    }
    assert!(seen_ok);
}

#[test]
fn a_short_week_succeeds_exactly_when_each_day_can_be_staffed() {
    let days = labels(&["Monday", "Tuesday", "Wednesday", "Thursday", "Friday"]);
    let shifts = three_shifts();
    for seed in 0..10u64 {
        let mut enough = roster(6);
        let mut source = ShuffleSource::new(seed);
        let schedule = generate_schedule(&mut enough, &days, &shifts, &mut source, 0).unwrap();
        check_schedule(&schedule, &enough, &days, &shifts);

        let mut too_few = roster(5);
        let mut source = ShuffleSource::new(seed);
        let four_days = labels(&["Monday", "Tuesday", "Wednesday", "Thursday"]);
        let result = generate_schedule(&mut too_few, &four_days, &shifts, &mut source, 3);
        assert!(matches!(
            result,
            Err(Infeasible::CellShort { day: 0, shift: 2, assigned: 1, attempts: 4 })
        ));
    }
}

#[test]
fn the_same_seed_gives_the_same_schedule() {
    let days = week();
    let shifts = three_shifts();
    let mut first = roster(15);
    let mut second = roster(15);
    second[3].grant(&"Monday".to_string(), &"Evening".to_string());
    let mut a = ShuffleSource::new(2024);
    let mut b = ShuffleSource::new(2024);
    let one = generate_schedule(&mut first, &days, &shifts, &mut a, 5).unwrap();
    let two = generate_schedule(&mut second, &days, &shifts, &mut b, 5).unwrap();
    assert_eq!(one.cells, two.cells);
    assert_eq!(a.seed, b.seed);
    for (x, y) in first.iter().zip(second.iter()) {
        assert_eq!(x.days_worked, y.days_worked);
        assert_eq!(x.shifts_assigned, y.shifts_assigned);
    }
}

#[test]
fn another_seed_gives_another_schedule() {
    let days = week();
    let shifts = three_shifts();
    let mut first = roster(15);
    let mut second = roster(15);
    let one = generate_schedule(&mut first, &days, &shifts, &mut ShuffleSource::new(1), 5).unwrap();
    let two = generate_schedule(&mut second, &days, &shifts, &mut ShuffleSource::new(2), 5).unwrap();
    assert_ne!(one.cells, two.cells);
}

#[test]
fn an_empty_grid_needs_nobody() {
    let mut nobody: Vec<Employee> = Vec::new();
    let mut source = ShuffleSource::new(5);
    let no_days = generate_schedule(&mut nobody, &Vec::new(), &three_shifts(), &mut source, 0).unwrap();
    assert!(no_days.cells.is_empty());
    let no_shifts = generate_schedule(&mut nobody, &week(), &Vec::new(), &mut source, 0).unwrap();
    assert_eq!(no_shifts.cells.len(), 7);
    assert!(no_shifts.cells.iter().all(|day| day.is_empty()));
}

#[test]
fn what_was_granted_before_is_taken_back_first() {
    let mut staff = vec![
        worked_out("employee1", "emp1"),
        worked_out("employee2", "emp2"),
    ];
    let days = labels(&["Monday"]);
    let shifts = labels(&["Morning"]);
    let mut source = ShuffleSource::new(9);
    let schedule = generate_schedule(&mut staff, &days, &shifts, &mut source, 0).unwrap();
    check_schedule(&schedule, &staff, &days, &shifts);
    assert_eq!(staff[0].days_worked, 1);
    assert_eq!(staff[1].days_worked, 1);
}
