use bcounter::overshoot::{next_event, Cluster, Next, Outcome};
use bcounter::rng::{Rng, PARTS};

// ---- a stream of writes, and gossip at a frequency ---------------------

/// Uniform in the half-open interval `[0, 1)`.
fn unit(rng: &mut Rng) -> f64 {
    rng.part() as f64 / PARTS as f64
}

/// Exponential inter-arrival time for a Poisson process of the given rate.
fn exp(rng: &mut Rng, rate: f64) -> f64 {
    -(1.0 - unit(rng)).ln() / rate
}

/// A standard normal deviate (Box-Muller).
fn normal(rng: &mut Rng) -> f64 {
    let u1 = 1.0 - unit(rng);
    let u2 = unit(rng);
    (-2.0 * u1.ln()).sqrt() * (std::f64::consts::TAU * u2).cos()
}

/// A lognormal draw with the given mean and coefficient of variation.
fn lognormal(rng: &mut Rng, mean: f64, cv: f64) -> f64 {
    let s2 = (1.0 + cv * cv).ln();
    let mu = mean.ln() - s2 / 2.0;
    (mu + s2.sqrt() * normal(rng)).exp()
}

#[derive(Clone, Copy)]
struct Params {
    nodes: u32,
    limit: u64,
    lambda: f64,
    size_mean: f64,
    size_cv: f64,
    gossip_hz: f64,
    duration: f64,
    seed: u64,
}

fn base() -> Params {
    Params {
        nodes: 8,
        limit: 100_000,
        lambda: 50.0,
        size_mean: 100.0,
        size_cv: 1.0,
        gossip_hz: 0.0,
        duration: 60.0,
        seed: 1,
    }
}

fn consumption_rate(p: &Params) -> f64 {
    f64::from(p.nodes) * p.lambda * p.size_mean
}

/// A number that orders as a time does.
fn rank(time: f64) -> u64 {
    assert!(time >= 0.0);
    (time + 0.0).to_bits()
}

fn run(p: &Params) -> Outcome {
    let mut rng = Rng::new(p.seed);
    let mut cluster = Cluster::new(p.nodes, p.limit);
    let mut next_write: Vec<f64> = (0..p.nodes).map(|_| exp(&mut rng, p.lambda)).collect();
    let gossip_tau = if p.gossip_hz > 0.0 {
        1.0 / p.gossip_hz
    } else {
        f64::INFINITY
    };
    let mut next_gossip = gossip_tau;
    loop {
        let writes: Vec<u64> = next_write.iter().map(|&t| rank(t)).collect();
        match next_event(&writes, rank(next_gossip), rank(p.duration)) {
            Next::Over => break,
            Next::Gossip => {
                cluster.gossip();
                next_gossip += gossip_tau;
            }
            Next::Write(node) => {
                let draw = lognormal(&mut rng, p.size_mean, p.size_cv).round() as u64;
                cluster.write(node, draw.max(1));
                next_write[node] += exp(&mut rng, p.lambda);
            }
        }
    }
    cluster.outcome()
}

/// The mean overshoot over `reps` runs, as a percentage of the limit, and the false denials.
fn sweep_point(base: &Params, gossip_hz: f64, reps: u64) -> (f64, u64) {
    let mut total = 0.0;
    let mut false_denials = 0u64;
    for r in 0..reps {
        let o = run(&Params {
            gossip_hz,
            seed: base.seed.wrapping_add(r.wrapping_mul(0x1000_0001)),
            ..*base
        });
        total += o.overshoot as f64 / base.limit as f64 * 100.0;
        false_denials += o.false_denials;
    }
    (total / reps as f64, false_denials)
}

#[test]
fn same_seed_is_deterministic() {
    let p = Params {
        gossip_hz: 5.0,
        ..base()
    };
    let a = run(&p);
    let b = run(&p);
    assert_eq!(a.true_total, b.true_total);
    assert_eq!(a.admitted, b.admitted);
    assert_eq!(a.denied, b.denied);
}

#[test]
fn optimistic_counter_never_false_denies() {
    // Across a spread of gossip rates, a denial only ever happens once the truth is at the
    // limit -- the defining property of the optimistic branch.
    for &f in &[0.0, 1.0, 10.0, 100.0] {
        let (_, false_denials) = sweep_point(&base(), f, 50);
        assert_eq!(false_denials, 0, "false denials at f={f}");
    }
}

#[test]
fn no_gossip_saturates_near_the_n_minus_one_ceiling() {
    // With no exchange each node fills the whole limit on its own.
    let (mean_pct, _) = sweep_point(&base(), 0.0, 100);
    let ceiling = f64::from(base().nodes - 1) * 100.0;
    assert!(
        mean_pct > 0.8 * ceiling,
        "mean overshoot {:.0}% should approach the {:.0}% ceiling",
        mean_pct,
        ceiling
    );
}

#[test]
fn overshoot_shrinks_as_gossip_quickens() {
    let (slow, _) = sweep_point(&base(), 2.0, 200);
    let (fast, _) = sweep_point(&base(), 50.0, 200);
    assert!(
        fast < slow,
        "faster gossip should overshoot less: f=50 gave {fast:.2}% vs f=2 {slow:.2}%"
    );
}

#[test]
fn overshoot_tracks_the_one_over_f_reference() {
    // Measured overshoot should sit within a small constant factor of the rate/f line in the
    // regime where gossip is frequent relative to the fill.
    let b = base();
    let rate = consumption_rate(&b);
    for &f in &[10.0, 20.0, 50.0] {
        let (measured, _) = sweep_point(&b, f, 300);
        let reference = rate / f / b.limit as f64 * 100.0;
        let ratio = measured / reference;
        assert!(
            (0.2..5.0).contains(&ratio),
            "at f={f} measured {measured:.2}% vs rate/f {reference:.2}% (ratio {ratio:.2})"
        );
    }
}

// ---- single steps ------------------------------------------------------

#[test]
fn the_earliest_event_comes_next_and_gossip_goes_first() {
    assert_eq!(next_event(&[7, 3, 3], 9, 10), Next::Write(1));
    assert_eq!(next_event(&[7, 3, 3], 3, 10), Next::Gossip);
    assert_eq!(next_event(&[7, 3, 3], 4, 10), Next::Write(1));
    assert_eq!(next_event(&[7], 8, 7), Next::Write(0));
    assert_eq!(next_event(&[7], 8, 6), Next::Over);
    assert_eq!(next_event(&[7], 5, 4), Next::Over);
}

#[test]
fn without_gossip_two_nodes_each_fill_the_limit() {
    let mut c = Cluster::new(2, 100);
    assert_eq!(c.len(), 2);
    assert!(c.write(0, 100));
    assert!(c.write(1, 100));
    assert!(!c.write(0, 1));
    let o = c.outcome();
    assert_eq!(o.true_total, 200);
    assert_eq!(o.overshoot, 100);
    assert_eq!(o.admitted, 2);
    assert_eq!(o.denied, 1);
    assert_eq!(o.false_denials, 0);
}

#[test]
fn gossip_shows_every_node_what_the_others_wrote() {
    let mut c = Cluster::new(3, 100);
    assert!(c.write(0, 60));
    c.gossip();
    assert!(!c.write(1, 41));
    assert!(c.write(1, 40));
    // Node 2 has not heard of the second write yet.
    assert!(c.write(2, 40));
    c.gossip();
    assert!(!c.write(2, 1));
    let o = c.outcome();
    assert_eq!(o.true_total, 140);
    assert_eq!(o.overshoot, 40);
    assert_eq!(o.admitted, 3);
    assert_eq!(o.denied, 2);
    assert_eq!(o.false_denials, 0);
}

#[test]
fn a_cluster_under_its_limit_has_no_overshoot() {
    let mut c = Cluster::new(1, 100);
    assert!(c.write(0, 99));
    assert_eq!(c.outcome().overshoot, 0);
    assert!(!c.write(0, 2));
    assert!(c.write(0, 1));
    assert_eq!(c.outcome().overshoot, 0);
}
