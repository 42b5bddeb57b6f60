use rx_ising::sample_counter::SampleCounter;

const FLOAT_CRITERIA: f64 = 1e-6;

#[test]
fn test_sample_counter() {
    let mut counter = SampleCounter::new();
    for i in 0..99999 {
        if i % 3 == 0 {
            counter.reject();
        } else {
            counter.accept();
        }
    }
    assert_eq!(counter.get_accepted(), 66666);
    assert_eq!(counter.get_generated(), 99999);
    let rate = counter.get_accepted() as f64 / counter.get_generated() as f64;
    assert!((rate - 2.0 / 3.0).abs() < FLOAT_CRITERIA);
}

#[test]
fn new_counter_is_empty() {
    let counter = SampleCounter::new();
    assert_eq!(counter.get_generated(), 0);
    assert_eq!(counter.get_accepted(), 0);
}

#[test]
fn counts_any_interleaving() {
    let mut counter = SampleCounter::new();
    let outcomes = [true, false, false, true, true, false, true];
    for accepted in outcomes {
        if accepted {
            counter.accept();
        } else {
            counter.reject();
        }
    }
    assert_eq!(counter.get_generated(), 7);
    assert_eq!(counter.get_accepted(), 4);
}

#[test]
fn only_rejections() {
    let mut counter = SampleCounter::new();
    counter.reject();
    counter.reject();
    assert_eq!(counter.get_generated(), 2);
    assert_eq!(counter.get_accepted(), 0);
}

#[test]
fn counter_reads_are_stable() {
    let mut counter = SampleCounter::new();
    counter.accept();
    counter.reject();
    assert_eq!(counter.get_generated(), counter.get_generated());
    assert_eq!(counter.get_accepted(), counter.get_accepted());
    assert_eq!(counter.get_accepted(), 1);
}
