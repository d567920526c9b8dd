use boids::agent::{Agent, Species, State};
use boids::model::Model;
use boids::settings::{GUIParameters, GUIPredParams, GUIPreyParams, PlayState, SimError, BC, IC};

type P = (f64, f64);

const L: f64 = 10.0;

fn floor_cell(p: P, side: f64) -> (i64, i64) {
    ((p.0 / side).floor() as i64, (p.1 / side).floor() as i64)
}

fn distance(a: P, b: P) -> f64 {
    ((b.0 - a.0).powi(2) + (b.1 - a.1).powi(2)).sqrt()
}

/// A model on a 10 x 10 grid (domain 10, prey vision 1) with predators
/// seeing twice as far.
fn build(agents: &[(Species, P)]) -> Model<P> {
    let mut m: Model<P> = Model::new(10, 2).unwrap();
    for (s, p) in agents {
        let (fx, fy) = floor_cell(*p, 1.0);
        m.add_agent(*s, *p, (0.0, 0.0), fx, fy);
    }
    m
}

fn latest(m: &Model<P>, a: usize) -> P {
    *m.agent(a).positions.last().unwrap()
}

fn homes(m: &Model<P>) -> Vec<(usize, usize)> {
    (0..m.num_agents())
        .map(|a| {
            let (fx, fy) = floor_cell(latest(m, a), 1.0);
            m.cell_finder(fx, fy)
        })
        .collect()
}

fn close_pairs(m: &Model<P>, strike: f64) -> Vec<(usize, usize)> {
    let mut out = Vec::new();
    for p in 0..m.num_agents() {
        for v in 0..m.num_agents() {
            if m.agent(p).agent_type == Species::Predator
                && m.agent(v).agent_type == Species::Prey
                && distance(latest(m, p), latest(m, v)) < strike
            {
                out.push((p, v));
            }
        }
    }
    out
}

fn stand_still(m: &mut Model<P>) {
    let next: Vec<(P, P)> = (0..m.num_agents()).map(|a| (latest(m, a), (0.0, 0.0))).collect();
    m.advance(next);
}

fn in_any_bucket(m: &Model<P>, a: usize) -> usize {
    let mut count = 0;
    for i in 0..m.num_cells() {
        for j in 0..m.num_cells() {
            count += m.bucket(i, j).iter().filter(|&&x| x == a).count();
        }
    }
    count
}

#[test]
fn model_rejects_empty_grid_or_zero_ratio() {
    assert!(matches!(Model::<P>::new(0, 1), Err(SimError::InvalidConfiguration)));
    assert!(matches!(Model::<P>::new(4, 0), Err(SimError::InvalidConfiguration)));
    let m = Model::<P>::new(4, 3).unwrap();
    assert_eq!(m.num_agents(), 0);
    assert_eq!(m.num_cells(), 4);
    assert_eq!(m.vision_ratio(), 3);
    assert_eq!(m.current_index(), 0);
}

#[test]
fn added_agents_get_stable_indices_and_cells() {
    let m = build(&[(Species::Prey, (2.5, 3.5)), (Species::Predator, (2.2, 3.9))]);
    assert_eq!(m.num_agents(), 2);
    assert_eq!(m.bucket(2, 3), vec![0, 1]);
    assert_eq!(m.agent(1).agent_type, Species::Predator);
    assert_eq!(m.agent(0).dead, State::Alive);
    assert_eq!(m.count_alive(Species::Prey), 1);
    assert_eq!(m.count_alive(Species::Predator), 1);
}

#[test]
fn advance_appends_one_entry_per_living_agent() {
    let mut m = build(&[(Species::Prey, (2.5, 3.5)), (Species::Prey, (7.0, 7.0))]);
    m.advance(vec![((2.6, 3.5), (1.0, 0.0)), ((7.0, 7.2), (0.0, 1.0))]);
    assert_eq!(m.agent(0).positions, vec![(2.5, 3.5), (2.6, 3.5)]);
    assert_eq!(m.agent(1).velocities, vec![(0.0, 0.0), (0.0, 1.0)]);
    assert_eq!(m.current_index(), 0);
    m.tick();
    assert_eq!(m.current_index(), 1);
}

#[test]
fn reindex_follows_latest_positions() {
    let mut m = build(&[(Species::Prey, (2.5, 3.5)), (Species::Prey, (7.0, 7.0))]);
    m.advance(vec![((3.1, 3.5), (1.0, 0.0)), ((7.0, 7.2), (0.0, 1.0))]);
    let h = homes(&m);
    m.reindex(&h);
    assert!(m.bucket(2, 3).is_empty());
    assert_eq!(m.bucket(3, 3), vec![0]);
    assert_eq!(m.bucket(7, 7), vec![1]);
}

#[test]
fn scan_windows_have_the_right_extent() {
    let m = build(&[
        (Species::Prey, (5.5, 5.5)),
        (Species::Prey, (4.5, 6.5)),
        (Species::Prey, (3.5, 5.5)),
        (Species::Predator, (6.5, 6.5)),
    ]);
    let mut w = m.prey_neighbors(5, 5);
    w.sort();
    assert_eq!(w, vec![0, 1, 3]);
    // a predator scans from ratio cells before to one cell after
    let mut w = m.predator_neighbors(5, 5);
    w.sort();
    assert_eq!(w, vec![0, 1, 2, 3]);
    let mut w = m.predator_neighbors(4, 4);
    w.sort();
    assert_eq!(w, vec![0, 2]);
}

#[test]
fn strike_takes_first_marked_prey() {
    let mut m = build(&[
        (Species::Predator, (5.5, 5.5)),
        (Species::Prey, (5.6, 5.5)),
        (Species::Prey, (5.5, 5.6)),
    ]);
    stand_still(&mut m);
    let w = m.predator_neighbors(5, 5);
    assert_eq!(w, vec![0, 1, 2]);
    assert_eq!(m.strike(5, 5, &vec![true, false, false]), None);
    assert_eq!(m.strike(5, 5, &vec![false, false, true]), Some(2));
    assert_eq!(m.agent(2).dead, State::Dead(0));
    assert_eq!(m.agent(1).dead, State::Alive);
    assert_eq!(m.bucket(5, 5), vec![0, 1]);
}

#[test]
fn prey_within_strike_distance_is_caught() {
    let mut m = build(&[
        (Species::Predator, (5.0, 5.0)),
        (Species::Predator, (1.0, 1.0)),
        (Species::Prey, (5.04, 5.0)),
    ]);
    let tick = m.current_index();
    stand_still(&mut m);
    let h = homes(&m);
    m.reindex(&h);
    let close = close_pairs(&m, 0.05);
    let kills = m.predation_pass(&close);
    assert_eq!(kills, vec![(0, 2)]);
    assert_eq!(m.agent(2).dead, State::Dead(tick));
    assert!(!m.bucket(5, 5).contains(&2));
    assert_eq!(in_any_bucket(&m, 2), 0);
    assert_eq!(m.count_alive(Species::Prey), 0);
}

#[test]
fn prey_out_of_strike_distance_survives() {
    let mut m = build(&[(Species::Predator, (5.0, 5.0)), (Species::Prey, (5.06, 5.0))]);
    stand_still(&mut m);
    let h = homes(&m);
    m.reindex(&h);
    let close = close_pairs(&m, 0.05);
    assert!(m.predation_pass(&close).is_empty());
    assert_eq!(m.agent(1).dead, State::Alive);
}

#[test]
fn each_predator_catches_at_most_one_prey_per_tick() {
    let mut m = build(&[
        (Species::Predator, (5.0, 5.0)),
        (Species::Prey, (5.01, 5.0)),
        (Species::Prey, (5.0, 5.01)),
        (Species::Predator, (8.0, 8.0)),
        (Species::Prey, (8.02, 8.0)),
    ]);
    stand_still(&mut m);
    let h = homes(&m);
    m.reindex(&h);
    let close = close_pairs(&m, 0.05);
    let kills = m.predation_pass(&close);
    assert_eq!(kills, vec![(0, 1), (3, 4)]);
    assert_eq!(m.agent(2).dead, State::Alive);
    m.tick();
    stand_still(&mut m);
    let h = homes(&m);
    m.reindex(&h);
    let close = close_pairs(&m, 0.05);
    assert_eq!(m.predation_pass(&close), vec![(0, 2)]);
    assert_eq!(m.agent(2).dead, State::Dead(1));
}

#[test]
fn dead_agent_history_is_frozen() {
    let mut m = build(&[(Species::Predator, (5.0, 5.0)), (Species::Prey, (5.01, 5.0))]);
    stand_still(&mut m);
    let h = homes(&m);
    m.reindex(&h);
    let close = close_pairs(&m, 0.05);
    m.predation_pass(&close);
    m.tick();
    assert_eq!(m.agent(1).dead, State::Dead(0));
    let frozen = m.agent(1).positions.len();
    assert_eq!(frozen, 2);
    for _ in 0..5 {
        stand_still(&mut m);
        let h = homes(&m);
        m.reindex(&h);
        m.tick();
        assert_eq!(m.agent(1).positions.len(), frozen);
        assert_eq!(m.agent(1).velocities.len(), frozen);
        assert_eq!(in_any_bucket(&m, 1), 0);
    }
    assert_eq!(m.agent(0).positions.len(), 7);
}

#[test]
fn identical_inputs_give_identical_runs() {
    let run = || {
        let mut m = build(&[
            (Species::Predator, (5.0, 5.0)),
            (Species::Prey, (5.3, 5.0)),
            (Species::Prey, (2.0, 9.5)),
        ]);
        for t in 0..4 {
            let next: Vec<(P, P)> = (0..m.num_agents())
                .map(|a| {
                    let p = latest(&m, a);
                    let step = if a == 0 { 0.1 } else { 0.01 * t as f64 };
                    (((p.0 + step) % L, p.1), (step, 0.0))
                })
                .collect();
            m.advance(next);
            let h = homes(&m);
            m.reindex(&h);
            let close = close_pairs(&m, 0.05);
            m.predation_pass(&close);
            m.tick();
        }
        (0..m.num_agents()).map(|a| (m.agent(a).positions.clone(), m.agent(a).dead)).collect::<Vec<_>>()
    };
    assert_eq!(run(), run());
}

#[test]
fn agent_records_its_history() {
    let mut a: Agent<P> = Agent::new(Species::Prey, (1.0, 2.0), (0.0, 1.0));
    assert!(a.is_alive());
    assert!(a.is_prey());
    a.update((1.0, 2.5), (0.0, 1.0));
    assert_eq!(a.history_len(), 2);
    a.kill(1);
    assert!(!a.is_alive());
    assert_eq!(a.dead, State::Dead(1));
}

#[test]
fn play_state_toggles() {
    assert_eq!(PlayState::play.swap(), PlayState::paused);
    assert_eq!(PlayState::paused.swap(), PlayState::play);
}

#[test]
fn boundary_policy_cycles() {
    let soft: BC<f64> = BC::Soft(1.5);
    assert!(matches!(soft.swap(0.5), BC::Periodic));
    assert!(matches!(BC::<f64>::Periodic.swap(0.5), BC::Hard));
    assert!(matches!(BC::<f64>::Hard.swap(0.5), BC::Soft(r) if r == 0.5));
    assert_ne!(IC::Random, IC::School);
}

#[test]
fn editor_defaults() {
    let g = GUIParameters::new();
    assert_eq!(g.bound_length, "10");
    assert_eq!(g.vision_radius, "1");
    let prey = GUIPreyParams::new();
    assert_eq!(prey.prey_alignment, "1");
    assert_eq!(prey.predator_centering, "10");
    assert_eq!(prey.predator_repulsion, "1.0");
    assert_eq!(prey.boundary, "20");
    let pred = GUIPredParams::new();
    assert_eq!(pred.nearest_prey, "1");
    assert_eq!(pred.boundary, "10");
    assert_eq!(pred.prey_attraction, "0");
}

#[test]
fn step_runs_a_whole_tick() {
    let mut m = build(&[
        (Species::Predator, (5.0, 5.0)),
        (Species::Prey, (5.5, 5.0)),
        (Species::Prey, (1.5, 1.5)),
    ]);
    let next: Vec<(P, P)> = vec![((5.3, 5.0), (1.0, 0.0)), ((5.32, 5.0), (0.0, 0.0)), ((2.5, 1.5), (1.0, 0.0))];
    let homes: Vec<(usize, usize)> = next
        .iter()
        .map(|(p, _)| {
            let (fx, fy) = floor_cell(*p, 1.0);
            m.cell_finder(fx, fy)
        })
        .collect();
    let close = vec![(0, 1)];
    let kills = m.step(next, &homes, &close);
    assert_eq!(kills, vec![(0, 1)]);
    assert_eq!(m.current_index(), 1);
    assert_eq!(m.agent(1).dead, State::Dead(0));
    assert_eq!(m.agent(1).positions.len(), 2);
    assert_eq!(m.agent(0).positions, vec![(5.0, 5.0), (5.3, 5.0)]);
    assert_eq!(m.bucket(5, 5), vec![0]);
    assert_eq!(m.bucket(2, 1), vec![2]);
    assert!(m.bucket(1, 1).is_empty());
}
