use rust_scheduler::shuffle::ShuffleSource;

#[test]
fn an_ordering_holds_every_position_once() {
    let mut source = ShuffleSource::new(12345);
    let order = source.ordering(100);
    let mut sorted = order.clone();
    sorted.sort();
    assert_eq!(sorted, (0..100).collect::<Vec<usize>>());
    assert_ne!(order, sorted);
}

#[test]
fn a_shuffle_keeps_the_items() {
    let mut source = ShuffleSource::new(3);
    let mut items: Vec<usize> = vec![5, 5, 9, 1, 1, 1, 40, 41, 42, 43, 44, 45, 46, 47, 48];
    let before = items.clone();
    source.shuffle(&mut items);
    assert_ne!(items, before);
    let mut a = items.clone();
    let mut b = before.clone();
    a.sort();
    b.sort();
    assert_eq!(a, b);
}

#[test]
fn a_seed_decides_the_shuffle() {
    let mut a = ShuffleSource::new(99);
    let mut b = ShuffleSource::new(99);
    assert_eq!(a.ordering(50), b.ordering(50));
    assert_eq!(a.ordering(50), b.ordering(50));
    let mut c = ShuffleSource::new(100);
    let mut d = ShuffleSource::new(99);
    assert_ne!(c.ordering(50), d.ordering(50));
}

#[test]
fn every_draw_moves_the_source_on() {
    let mut source = ShuffleSource::new(u64::MAX - 1);
    let first = source.ordering(30);
    assert_eq!(source.seed, u64::MAX);
    let second = source.ordering(30);
    assert_eq!(source.seed, 0);
    assert_ne!(first, second);
    let mut again = ShuffleSource::new(u64::MAX);
    assert_eq!(again.ordering(30), second);
    let mut none: Vec<usize> = Vec::new();
    source.shuffle(&mut none);
    assert!(none.is_empty());
    assert_eq!(source.seed, 1);
}
