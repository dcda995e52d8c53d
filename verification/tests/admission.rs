use arbgraph::admission::AdmissionController;

#[test]
fn burst_of_twice_capacity_is_bounded() {
    // P-style scenario: N = 8 pipelines against a semaphore of size k = 4
    let k: u64 = 4;
    let n: usize = 8;
    let mut ctl = AdmissionController::new(k);
    let mut active: u64 = 0;
    let mut peak: u64 = 0;
    let mut pending: Vec<usize> = (0..n).collect();
    let mut completed: Vec<usize> = Vec::new();

    // first wave: everyone tries at once; at most k may be in flight
    let mut admitted: Vec<usize> = Vec::new();
    pending.retain(|&p| {
        if ctl.try_acquire() {
            admitted.push(p);
            false
        } else {
            true
        }
    });
    active += admitted.len() as u64;
    peak = peak.max(active);
    assert_eq!(admitted.len() as u64, k);
    assert_eq!(pending.len() as u64, n as u64 - k);
    assert!(peak <= k);

    // denied submissions retry as slots free up; everyone completes
    let mut rounds = 0;
    while completed.len() < n {
        rounds += 1;
        assert!(rounds < 100, "admission deadlocked");
        if let Some(p) = admitted.pop() {
            // a running pipeline finishes and releases its slot
            completed.push(p);
            ctl.release();
            active -= 1;
        }
        pending.retain(|&p| {
            if ctl.try_acquire() {
                admitted.push(p);
                false
            } else {
                true
            }
        });
        active = admitted.len() as u64;
        peak = peak.max(active);
        assert!(active <= k);
    }
    assert_eq!(completed.len(), n);
    assert!(peak <= k);
}

#[test]
fn acquire_grants_exactly_capacity() {
    let mut ctl = AdmissionController::new(2);
    assert!(ctl.try_acquire());
    assert!(ctl.try_acquire());
    assert!(!ctl.try_acquire());
    ctl.release();
    assert!(ctl.try_acquire());
    assert!(!ctl.try_acquire());
}

#[test]
fn release_is_total_and_never_underflows() {
    let mut ctl = AdmissionController::new(1);
    ctl.release(); // releasing with nothing in flight is a no-op
    assert!(ctl.try_acquire());
    ctl.release();
    ctl.release();
    assert!(ctl.try_acquire());
}

#[test]
fn zero_capacity_admits_nothing() {
    let mut ctl = AdmissionController::new(0);
    assert!(!ctl.try_acquire());
}
