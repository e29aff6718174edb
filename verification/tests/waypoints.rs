use tower_defense::agent::{follow_path, GridAgent, Steering};
use tower_defense::coords::GridCoord;
use tower_defense::simplify::simplify_path;

#[test]
fn short_paths_stay_as_they_are() {
    assert_eq!(simplify_path(Vec::new()), Vec::new());
    assert_eq!(simplify_path(vec![(1, 1)]), vec![(1, 1)]);
    assert_eq!(simplify_path(vec![(0, 0), (1, 0)]), vec![(0, 0), (1, 0)]);
    assert_eq!(simplify_path(vec![(0, 0), (1, 0), (2, 0)]), vec![(0, 0), (1, 0), (2, 0)]);
    assert_eq!(simplify_path(vec![(0, 0), (1, 0), (1, 1)]), vec![(0, 0), (1, 0), (1, 1)]);
}

#[test]
fn a_straight_run_collapses_into_its_ends() {
    assert_eq!(simplify_path(vec![(0, 0), (1, 0), (2, 0), (3, 0), (4, 0)]), vec![(0, 0), (4, 0)]);
    assert_eq!(simplify_path(vec![(0, 3), (0, 2), (0, 1), (0, 0)]), vec![(0, 3), (0, 0)]);
}

#[test]
fn a_diagonal_run_collapses_into_its_ends() {
    let path = vec![(0, 0), (1, 1), (2, 2), (3, 3), (4, 4)];
    assert_eq!(simplify_path(path), vec![(0, 0), (4, 4)]);
}

#[test]
fn every_turn_stays() {
    let path = vec![(0, 0), (1, 0), (2, 0), (3, 1), (4, 2), (4, 3), (4, 4)];
    assert_eq!(simplify_path(path), vec![(0, 0), (2, 0), (4, 2), (4, 4)]);
}

#[test]
fn a_turn_at_the_cell_before_the_last_stays() {
    assert_eq!(
        simplify_path(vec![(0, 0), (1, 0), (2, 0), (2, 1)]),
        vec![(0, 0), (2, 0), (2, 1)]
    );
}

#[test]
fn a_turn_at_the_second_cell_stays() {
    assert_eq!(
        simplify_path(vec![(0, 0), (0, 1), (1, 1), (2, 1)]),
        vec![(0, 0), (0, 1), (2, 1)]
    );
}

#[test]
fn a_zigzag_keeps_every_cell() {
    let path = vec![(0, 0), (1, 1), (2, 0), (3, 1), (4, 0)];
    assert_eq!(simplify_path(path.clone()), path);
}

#[test]
fn simplifying_twice_changes_nothing_more() {
    let paths: Vec<Vec<GridCoord>> = vec![
        vec![(0, 0), (1, 0), (2, 0), (3, 1), (4, 2), (4, 3), (4, 4)],
        vec![(0, 0), (1, 1), (2, 2), (3, 3), (4, 4)],
        vec![(0, 0), (1, 0), (2, 1), (3, 1), (4, 0), (5, 0), (6, 0), (6, 1), (6, 2), (5, 3)],
        vec![(2, 2)],
        vec![(0, 0), (1, 1), (2, 0), (3, 1), (4, 0)],
    ];
    for path in paths {
        let once = simplify_path(path);
        assert_eq!(simplify_path(once.clone()), once);
    }
}

#[test]
fn simplifying_keeps_both_ends() {
    let paths: Vec<Vec<GridCoord>> = vec![
        vec![(7, 7)],
        vec![(0, 0), (0, 1)],
        vec![(0, 0), (1, 0), (2, 0), (2, 1)],
        vec![(3, 3), (2, 2), (1, 1), (0, 0), (0, 1), (0, 2)],
        vec![(0, 0), (0, 0), (0, 0), (0, 0), (5, 5)],
    ];
    for path in paths {
        let ends = (path[0], *path.last().unwrap());
        let waypoints = simplify_path(path);
        assert_eq!((waypoints[0], *waypoints.last().unwrap()), ends);
    }
}

#[test]
fn steps_longer_than_one_cell_can_break_idempotence() {
    let path = vec![(0, 0), (2, 0), (3, 0), (4, 0), (4, 1), (4, 3)];
    let once = simplify_path(path);
    assert_eq!(once, vec![(0, 0), (2, 0), (4, 0), (4, 1), (4, 3)]);
    assert_eq!(simplify_path(once), vec![(0, 0), (4, 0), (4, 1), (4, 3)]);
}

#[test]
fn an_idle_agent_stays_idle() {
    let mut agent = GridAgent::new(None);
    assert_eq!(agent.next_waypoint(), None);
    assert_eq!(follow_path(&mut agent, false), Steering::Idle);
    assert_eq!(follow_path(&mut agent, true), Steering::Idle);
    assert_eq!(agent.path, None);
}

#[test]
fn an_agent_with_an_empty_path_becomes_idle() {
    let mut agent = GridAgent::new(Some(Vec::new()));
    assert_eq!(agent.next_waypoint(), None);
    assert_eq!(follow_path(&mut agent, true), Steering::Idle);
    assert_eq!(agent.path, None);
}

#[test]
fn an_agent_moves_towards_the_waypoint_in_front() {
    let mut agent = GridAgent::new(Some(vec![(2, 3), (5, 3)]));
    assert_eq!(agent.next_waypoint(), Some((2, 3)));
    assert_eq!(follow_path(&mut agent, false), Steering::MoveTowards((2, 3)));
    assert_eq!(agent.path, Some(vec![(2, 3), (5, 3)]));
}

#[test]
fn an_agent_that_has_arrived_drops_the_waypoint() {
    let mut agent = GridAgent::new(Some(vec![(2, 3), (5, 3)]));
    assert_eq!(follow_path(&mut agent, true), Steering::Arrived((2, 3)));
    assert_eq!(agent.path, Some(vec![(5, 3)]));
    assert_eq!(follow_path(&mut agent, true), Steering::Arrived((5, 3)));
    assert_eq!(agent.path, Some(Vec::new()));
    assert_eq!(follow_path(&mut agent, true), Steering::Idle);
    assert_eq!(agent.path, None);
}

#[test]
fn an_agent_reaches_a_waypoint_a_hundred_units_away_in_two_ticks() {
    // One cell is 100 world units wide; the agent stands at the centre of
    // cell (0, 0), the world origin, and the waypoint is the next cell.
    let cell_size = 100.0_f32;
    let speed = 50.0_f32;
    let margin = 0.5_f32;
    let tick = 1.0_f32;
    let mut position = (0.0_f32, 0.0_f32);
    let mut agent = GridAgent::new(Some(vec![(1, 0)]));
    let mut actions = Vec::new();
    for _ in 0..4 {
        let reached = match agent.next_waypoint() {
            Some(next) => {
                let target = (next.0 as f32 * cell_size, next.1 as f32 * cell_size);
                (position.0 - target.0).abs() < margin && (position.1 - target.1).abs() < margin
            }
            None => false,
        };
        let action = follow_path(&mut agent, reached);
        if let Steering::MoveTowards(next) = action {
            let target = (next.0 as f32 * cell_size, next.1 as f32 * cell_size);
            let offset = (target.0 - position.0, target.1 - position.1);
            let length = (offset.0 * offset.0 + offset.1 * offset.1).sqrt();
            position.0 += offset.0 / length * speed * tick;
            position.1 += offset.1 / length * speed * tick;
        }
        actions.push(action);
        if actions.len() == 2 {
            assert!((position.0 - 100.0).abs() < margin && position.1.abs() < margin);
        }
    }
    assert_eq!(
        actions,
        vec![
            Steering::MoveTowards((1, 0)),
            Steering::MoveTowards((1, 0)),
            Steering::Arrived((1, 0)),
            Steering::Idle,
        ]
    );
    assert_eq!(agent.path, None);
    assert_eq!(position, (100.0, 0.0));
}
