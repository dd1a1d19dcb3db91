use hackrf_gnss::discipline::{
    PlausibilityGate, Refusal, GATE_FRESH_LOCK_S, GATE_MAX_SLEW_PPM, GATE_STALE_S, GATE_WINDOW,
};

struct Gate(PlausibilityGate);

impl Gate {
    fn new() -> Self {
        Gate(PlausibilityGate::new())
    }

    fn observe_locked(&mut self, n: usize) {
        self.0.observe_locked(n);
    }

    fn check(&mut self, resid: f64, locks: &[f64], age: f64) -> Result<(), &'static str> {
        let step = (resid - self.0.prev_resid.map_or(resid, f64::from_bits)).abs();
        let locks: Vec<u64> = locks.iter().map(|l| l.to_bits()).collect();
        self.0.check(resid.to_bits(), step.to_bits(), &locks, age.to_bits()).map_err(|r| r.reason())
    }
}

#[test]
fn gate_passes_healthy_context() {
    let mut g = Gate::new();
    for _ in 0..3 {
        g.observe_locked(5);
    }
    assert!(g.check(-0.40, &[45.0, 90.0], 1.0).is_ok());
    assert!(g.check(-0.44, &[46.0, 91.0], 1.0).is_ok());
}

#[test]
fn gate_suppresses_lock_collapse() {
    let mut g = Gate::new();
    for _ in 0..5 {
        g.observe_locked(6);
    }
    g.observe_locked(2);
    assert_eq!(
        g.check(-0.40, &[45.0], 1.0),
        Err("locked-channel count collapsing")
    );
    let mut g = Gate::new();
    for _ in 0..5 {
        g.observe_locked(6);
    }
    g.observe_locked(4);
    assert!(g.check(-0.40, &[45.0], 1.0).is_ok());
    let mut g = Gate::new();
    for _ in 0..5 {
        g.observe_locked(1);
    }
    assert!(g.check(-0.40, &[45.0], 1.0).is_ok());
}

#[test]
fn gate_suppresses_fresh_lock() {
    let mut g = Gate::new();
    g.observe_locked(5);
    assert_eq!(
        g.check(-0.40, &[45.0, 12.0], 1.0),
        Err("WAAS/GEO channel below fresh-lock threshold")
    );
    let mut g = Gate::new();
    g.observe_locked(5);
    assert!(g.check(-0.40, &[45.0, 31.0], 1.0).is_ok());
}

#[test]
fn gate_suppresses_implausible_slew() {
    let mut g = Gate::new();
    g.observe_locked(5);
    assert!(g.check(-0.40, &[45.0], 1.0).is_ok());
    assert_eq!(
        g.check(-0.05, &[45.0], 1.0),
        Err("residual jump beyond plausible TCXO slew")
    );
    assert!(g.check(-0.46, &[45.0], 1.0).is_ok());
}

#[test]
fn gate_suppresses_stale_inputs() {
    let mut g = Gate::new();
    g.observe_locked(5);
    assert_eq!(
        g.check(-0.40, &[45.0], 15.0),
        Err("measurement inputs stale")
    );
    assert!(g.check(-0.40, &[45.0], 5.0).is_ok());
}

#[test]
fn limits_are_the_doubles_they_are_named_for() {
    assert_eq!(GATE_FRESH_LOCK_S, 30.0f64.to_bits());
    assert_eq!(GATE_STALE_S, 10.0f64.to_bits());
    assert_eq!(GATE_MAX_SLEW_PPM, 0.15f64.to_bits());
}

fn check(g: &mut PlausibilityGate, step: f64, lock: f64, age: f64) -> Result<(), Refusal> {
    g.check(1.0f64.to_bits(), step.to_bits(), &[lock.to_bits()], age.to_bits())
}

#[test]
fn only_the_last_ten_counts_are_remembered() {
    let mut g = PlausibilityGate::new();
    g.observe_locked(9);
    for _ in 0..9 {
        g.observe_locked(3);
    }
    assert_eq!(check(&mut g, 0.0, 60.0, 0.0), Err(Refusal::Collapsing));
    g.observe_locked(3);
    assert_eq!(g.locked_hist.len(), GATE_WINDOW);
    assert_eq!(check(&mut g, 0.0, 60.0, 0.0), Ok(()));
}

#[test]
fn objections_come_in_a_fixed_order() {
    let mut g = PlausibilityGate::new();
    assert_eq!(check(&mut g, 9.0, 60.0, 0.0), Ok(()), "nothing to jump from");
    g.observe_locked(5);
    assert_eq!(check(&mut g, 9.0, 1.0, 60.0), Err(Refusal::FreshLock));
    assert_eq!(check(&mut g, 9.0, 60.0, 60.0), Err(Refusal::Jump));
    assert_eq!(check(&mut g, 0.0, 60.0, 60.0), Err(Refusal::Stale));
    g.observe_locked(1);
    assert_eq!(check(&mut g, 9.0, 1.0, 60.0), Err(Refusal::Collapsing));
}

#[test]
fn limits_themselves_pass() {
    let mut g = PlausibilityGate::new();
    assert_eq!(check(&mut g, 0.0, 30.0, 10.0), Ok(()));
    assert_eq!(check(&mut g, 0.15, 30.0, 10.0), Ok(()));
    assert_eq!(check(&mut g, f64::NAN, f64::NAN, f64::NAN), Ok(()));
    assert_eq!(g.prev_resid, Some(1.0f64.to_bits()));
}

#[test]
fn refused_residuals_are_forgotten() {
    let mut g = PlausibilityGate::new();
    assert_eq!(g.check(2.0f64.to_bits(), 0, &[], 60.0f64.to_bits()), Err(Refusal::Stale));
    assert_eq!(g.prev_resid, None);
    assert_eq!(g.check(2.0f64.to_bits(), 0, &[], 0), Ok(()));
    assert_eq!(g.prev_resid, Some(2.0f64.to_bits()));
}
