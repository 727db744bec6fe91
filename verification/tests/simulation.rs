//! Tick-phase scenarios and the consensus analytics.

use belief_sim::agent::{Agent, MAX_HUNGER, Needs};
use belief_sim::belief::BeliefMap;
use belief_sim::consensus::{collective_view, error_grid, plurality_view};
use belief_sim::grid::Grid;
use belief_sim::kind::ResourceKind;
use belief_sim::prob::{ProbabilityVector, SCALE};
use belief_sim::sim::{
    ConfigError, Simulation, gossip_pair, gossip_phase, move_phase, needs_phase,
    perceive_phase,
};

const KINDS: [ResourceKind; 5] = [
    ResourceKind::Empty,
    ResourceKind::Food,
    ResourceKind::Water,
    ResourceKind::Stone,
    ResourceKind::Specter,
];

fn uniform_belief(w: usize, h: usize) -> BeliefMap {
    let mut cells = Vec::new();
    for _ in 0..w * h {
        cells.push(ProbabilityVector::uniform());
    }
    BeliefMap::from_cells(w, h, cells)
}

fn same_vector(a: &ProbabilityVector, b: &ProbabilityVector) -> bool {
    KINDS.iter().all(|k| a.get(*k) == b.get(*k))
}

#[test]
fn perception_on_all_food_grid_convinces_the_agent() {
    // 10x10 grid entirely food, one agent with uniform belief at zero
    // needs; after one perception pass the belief at the agent's own cell
    // (distance zero, certainty one) holds food as its plurality.
    let truth = Grid::filled(10usize, 10usize, ResourceKind::Food);
    let agent = Agent { x: 4, y: 7, needs: Needs { hunger: 0, thirst: 0 }, belief: uniform_belief(10, 10) };
    let mut agents = vec![agent];
    perceive_phase(&mut agents, &truth);
    let own = agents[0].belief.at(4, 7);
    assert_eq!(own.plurality(), ResourceKind::Food);
    assert_eq!(own.get(ResourceKind::Food), SCALE);
}

#[test]
fn consumption_relieves_hunger_and_clears_the_cell() {
    // Hunger one below the maximum, standing on food: after the movement
    // phase the agent has eaten — hunger down by one unit, cell emptied.
    let mut grid = Grid::filled(5usize, 5usize, ResourceKind::Food);
    let mut cells = Vec::new();
    for x in 0..5 {
        for y in 0..5 {
            if x == 2 && y == 2 {
                cells.push(ProbabilityVector::probable(ResourceKind::Food, SCALE));
            } else {
                cells.push(ProbabilityVector::uniform());
            }
        }
    }
    let belief = BeliefMap::from_cells(5, 5, cells);
    let agent = Agent {
        x: 2,
        y: 2,
        needs: Needs { hunger: MAX_HUNGER - 1, thirst: 0 },
        belief,
    };
    let mut agents = vec![agent];
    move_phase(&mut agents, &mut grid);
    assert_eq!(agents[0].needs.hunger, MAX_HUNGER - 2);
    assert_eq!(agents[0].x, 2);
    assert_eq!(agents[0].y, 2);
    assert_eq!(*grid.get(2, 2), ResourceKind::Empty);
    // The agent's own belief at the eaten cell is now certainly empty.
    assert_eq!(agents[0].belief.at(2, 2).get(ResourceKind::Empty), SCALE);
}

#[test]
fn starved_agents_are_culled_by_the_needs_phase() {
    let healthy = Agent { x: 0, y: 0, needs: Needs { hunger: 0, thirst: 0 }, belief: uniform_belief(3, 3) };
    let starving = Agent { x: 1, y: 1, needs: Needs { hunger: MAX_HUNGER, thirst: 0 }, belief: uniform_belief(3, 3) };
    let mut agents = vec![healthy, starving];
    needs_phase(&mut agents);
    assert_eq!(agents.len(), 1);
    assert_eq!(agents[0].x, 0);
    assert_eq!(agents[0].needs.hunger, 1);
    assert_eq!(agents[0].needs.thirst, 1);
}

#[test]
fn agent_at_exact_maximum_is_culled_after_bump() {
    let doomed = Agent { x: 0, y: 0, needs: Needs { hunger: MAX_HUNGER - 1, thirst: 0 }, belief: uniform_belief(2, 2) };
    let mut agents = vec![doomed];
    needs_phase(&mut agents);
    assert_eq!(agents.len(), 0);
}

#[test]
fn collective_view_of_identical_agents_matches_single_plurality() {
    let w = 4usize;
    let h = 3usize;
    let mut make = |kind: ResourceKind| {
        let mut cells = Vec::new();
        for i in 0..w * h {
            if i % 2 == 0 {
                cells.push(ProbabilityVector::probable(kind, SCALE));
            } else {
                cells.push(ProbabilityVector::probable(ResourceKind::Stone, 700_000));
            }
        }
        BeliefMap::from_cells(w, h, cells)
    };
    let mut agents = Vec::new();
    for i in 0..3 {
        agents.push(Agent {
            x: i,
            y: 0,
            needs: Needs { hunger: 0, thirst: 0 },
            belief: make(ResourceKind::Water),
        });
    }
    let collective = collective_view(&agents, w, h).expect("agents present");
    let single = plurality_view(&agents[0], w, h);
    for x in 0..w {
        for y in 0..h {
            assert_eq!(*collective.get(x, y), *single.get(x, y));
        }
    }
}

#[test]
fn collective_view_of_no_agents_is_no_data() {
    let agents: Vec<Agent> = Vec::new();
    assert!(collective_view(&agents, 4, 4).is_none());
}

#[test]
fn error_grid_flags_exactly_the_disagreements() {
    let truth = Grid::filled(3usize, 3usize, ResourceKind::Food);
    let mut view = Grid::filled(3usize, 3usize, ResourceKind::Food);
    view.set(1, 2, ResourceKind::Stone);
    let err = error_grid(&view, &truth);
    for x in 0..3 {
        for y in 0..3 {
            assert_eq!(*err.get(x, y), x == 1 && y == 2);
        }
    }
}

#[test]
fn gossip_pair_is_order_independent() {
    let build = || {
        let mut cells_a = Vec::new();
        let mut cells_b = Vec::new();
        for i in 0..4 {
            cells_a.push(ProbabilityVector::probable(ResourceKind::Food, 200_000 * i as u64));
            cells_b.push(ProbabilityVector::probable(ResourceKind::Water, 150_000 * i as u64));
        }
        let a = Agent { x: 0, y: 0, needs: Needs { hunger: 1, thirst: 2 }, belief: BeliefMap::from_cells(2, 2, cells_a) };
        let b = Agent { x: 1, y: 1, needs: Needs { hunger: 3, thirst: 4 }, belief: BeliefMap::from_cells(2, 2, cells_b) };
        vec![a, b]
    };
    let mut first_a = build();
    gossip_pair(&mut first_a, 0, 1);
    let mut first_b = build();
    gossip_pair(&mut first_b, 1, 0);
    for x in 0..2 {
        for y in 0..2 {
            assert!(same_vector(first_a[0].belief.at(x, y), first_b[0].belief.at(x, y)));
            assert!(same_vector(first_a[1].belief.at(x, y), first_b[1].belief.at(x, y)));
        }
    }
}

#[test]
fn lone_agent_skips_gossip_unchanged() {
    let mut rng = belief_sim::rng::rng_from_seed(31);
    let mut agents = vec![Agent {
        x: 0,
        y: 0,
        needs: Needs { hunger: 0, thirst: 0 },
        belief: uniform_belief(3, 3),
    }];
    agents[0].belief.put(1, 1, ProbabilityVector::probable(ResourceKind::Stone, 800_000));
    gossip_phase(&mut agents, &mut rng, 3, 3);
    assert_eq!(agents.len(), 1);
    assert_eq!(agents[0].belief.at(1, 1).get(ResourceKind::Stone), 840_000);
}

#[test]
fn odd_agent_out_keeps_its_belief() {
    // With three agents exactly one is left unpaired; its belief survives
    // the round byte for byte.
    let mut rng = belief_sim::rng::rng_from_seed(33);
    let mut agents = Vec::new();
    for i in 0..3usize {
        let mut belief = uniform_belief(2, 2);
        belief.put(0, 0, ProbabilityVector::probable(ResourceKind::Food, 300_000 * (i as u64 + 1)));
        agents.push(Agent { x: i, y: 0, needs: Needs { hunger: 0, thirst: 0 }, belief });
    }
    let before: Vec<Vec<u64>> = agents
        .iter()
        .map(|a| KINDS.iter().map(|k| a.belief.at(0, 0).get(*k)).collect())
        .collect();
    gossip_phase(&mut agents, &mut rng, 2, 2);
    let unchanged = agents
        .iter()
        .zip(before.iter())
        .filter(|(a, b)| {
            KINDS.iter().zip(b.iter()).all(|(k, v)| a.belief.at(0, 0).get(*k) == *v)
        })
        .count();
    assert!(unchanged >= 1, "the odd agent out must keep its belief");
}

#[test]
fn gossip_phase_keeps_positions_needs_and_count() {
    let mut rng = belief_sim::rng::rng_from_seed(21);
    let mut agents = Vec::new();
    for i in 0..5usize {
        agents.push(Agent {
            x: i,
            y: i,
            needs: Needs { hunger: i as u16, thirst: 0 },
            belief: uniform_belief(6, 6),
        });
    }
    gossip_phase(&mut agents, &mut rng, 6, 6);
    assert_eq!(agents.len(), 5);
    for (i, a) in agents.iter().enumerate() {
        assert_eq!(a.x, i);
        assert_eq!(a.y, i);
        assert_eq!(a.needs.hunger, i as u16);
    }
}

#[test]
fn simulation_new_rejects_bad_configs() {
    assert_eq!(Simulation::new(1, 0, 10, 3, 5).err(), Some(ConfigError::InvalidDimensions));
    assert_eq!(Simulation::new(1, 10, 0, 3, 5).err(), Some(ConfigError::InvalidDimensions));
    assert_eq!(Simulation::new(1, 4000, 10, 3, 5).err(), Some(ConfigError::InvalidDimensions));
    assert_eq!(Simulation::new(1, 10, 10, 3, 0).err(), Some(ConfigError::NoAgents));
    assert_eq!(Simulation::new(1, 10, 10, 0, 5).err(), Some(ConfigError::NoBiomes));
}

#[test]
fn simulation_runs_ticks_and_keeps_shape() {
    let mut sim = Simulation::new(42, 12, 9, 3, 6).expect("valid config");
    assert_eq!(sim.grid.width(), 12);
    assert_eq!(sim.grid.height(), 9);
    assert_eq!(sim.agents.len(), 6);
    let before = sim.agents.len();
    sim.tick();
    sim.tick();
    assert_eq!(sim.grid.width(), 12);
    assert_eq!(sim.grid.height(), 9);
    assert!(sim.agents.len() <= before);
}

#[test]
fn same_seed_reproduces_the_same_run() {
    let mut a = Simulation::new(77, 8, 8, 3, 4).expect("valid config");
    let mut b = Simulation::new(77, 8, 8, 3, 4).expect("valid config");
    a.tick();
    b.tick();
    for x in 0..8 {
        for y in 0..8 {
            assert_eq!(*a.grid.get(x, y), *b.grid.get(x, y));
        }
    }
    assert_eq!(a.agents.len(), b.agents.len());
    for (pa, pb) in a.agents.iter().zip(b.agents.iter()) {
        assert_eq!((pa.x, pa.y), (pb.x, pb.y));
        assert_eq!(pa.needs, pb.needs);
    }
}

#[test]
fn selection_wraps_in_both_directions() {
    let mut sim = Simulation::new(3, 6, 6, 2, 3).expect("valid config");
    assert_eq!(sim.selected, 0);
    sim.select_prev();
    assert_eq!(sim.selected, 2);
    sim.select_next();
    assert_eq!(sim.selected, 0);
    sim.select_next();
    assert_eq!(sim.selected, 1);
}
