use sand_dropper::grid::{Cell, Grid};
use sand_dropper::sim::{
    add_sand, grain_step, move_all_sand_one_step, Event, Grain, GrainStep, SimError, Simulator,
};

#[test]
fn grain_falls_straight_down_when_below_is_free() {
    let g = Grid::new(3, 3);
    assert_eq!(grain_step(&g, 1, 0), GrainStep::To { x: 1, y: 1 });
}

#[test]
fn blocked_below_with_both_diagonals_open_moves_left_never_right() {
    let mut g = Grid::new(3, 3);
    g.put(2, 1, Cell::Rock);
    assert_eq!(grain_step(&g, 1, 1), GrainStep::To { x: 0, y: 2 });
}

#[test]
fn blocked_below_and_left_slides_right() {
    let mut g = Grid::new(3, 3);
    g.put(2, 0, Cell::Rock);
    g.put(2, 1, Cell::Rock);
    assert_eq!(grain_step(&g, 1, 1), GrainStep::To { x: 2, y: 2 });
}

#[test]
fn blocked_on_all_three_sides_settles_in_place() {
    let mut g = Grid::new(3, 3);
    g.put(2, 0, Cell::Rock);
    g.put(2, 1, Cell::Rock);
    g.put(2, 2, Cell::Rock);
    assert_eq!(grain_step(&g, 1, 1), GrainStep::Settle);
}

#[test]
fn source_marker_is_not_an_obstacle() {
    let mut g = Grid::new(3, 3);
    g.put(1, 1, Cell::Source);
    assert_eq!(grain_step(&g, 1, 0), GrainStep::To { x: 1, y: 1 });
}

#[test]
fn grain_on_the_lowest_row_falls_into_the_void() {
    let g = Grid::new(2, 1);
    assert_eq!(grain_step(&g, 0, 1), GrainStep::Void);
}

#[test]
fn settle_writes_sand_and_reports_once() {
    let mut g = Grid::new(2, 3);
    for c in 0..3 {
        g.put(1, c, Cell::Rock);
    }
    let mut sand = vec![Grain { id: 0, x: 1, y: 0 }];
    let ev = move_all_sand_one_step(&mut g, &mut sand).unwrap();
    assert_eq!(ev, vec![Event::Settled { id: 0, x: 1, y: 0 }]);
    assert_eq!(g.at(0, 1), Cell::Sand);
    assert!(sand.is_empty());
}

#[test]
fn settling_the_same_position_twice_never_double_reports() {
    let mut g = Grid::new(2, 3);
    for c in 0..3 {
        g.put(1, c, Cell::Rock);
    }
    let mut sand = vec![Grain { id: 0, x: 1, y: 0 }];
    let ev = move_all_sand_one_step(&mut g, &mut sand).unwrap();
    assert_eq!(ev.len(), 1);
    // a later grain standing on the settled cell is finalized by the
    // defensive check: one event for it, and the grid does not change
    let mut again = vec![Grain { id: 1, x: 1, y: 0 }];
    let ev2 = move_all_sand_one_step(&mut g, &mut again).unwrap();
    assert_eq!(ev2, vec![Event::Settled { id: 1, x: 1, y: 0 }]);
    assert!(again.is_empty());
    for r in 0..2 {
        for c in 0..3 {
            let want = if r == 0 && c == 1 {
                Cell::Sand
            } else if r == 1 {
                Cell::Rock
            } else {
                Cell::Empty
            };
            assert_eq!(g.at(r, c), want);
        }
    }
}

#[test]
fn each_grain_yields_exactly_one_event_per_tick() {
    let mut g = Grid::new(4, 5);
    for c in 0..5 {
        g.put(3, c, Cell::Rock);
    }
    let mut sand = Vec::new();
    add_sand(&mut sand, 0, 2, 2);
    add_sand(&mut sand, 1, 2, 1);
    add_sand(&mut sand, 2, 2, 0);
    let ev = move_all_sand_one_step(&mut g, &mut sand).unwrap();
    assert_eq!(ev.len(), 3);
    assert_eq!(ev[0], Event::Settled { id: 0, x: 2, y: 2 });
    assert_eq!(ev[1], Event::Moved { id: 1, x: 1, y: 2 });
    assert_eq!(ev[2], Event::Moved { id: 2, x: 2, y: 1 });
    assert_eq!(sand, vec![Grain { id: 1, x: 1, y: 2 }, Grain { id: 2, x: 2, y: 1 }]);
}

#[test]
fn grain_needing_a_cell_outside_the_grid_is_an_error() {
    let mut g = Grid::new(2, 1);
    g.put(1, 0, Cell::Rock);
    let mut sand = vec![Grain { id: 0, x: 0, y: 0 }];
    assert!(matches!(
        move_all_sand_one_step(&mut g, &mut sand),
        Err(SimError::GrainOutOfBounds)
    ));
}

#[test]
fn spawn_cadence_adds_one_grain_every_so_many_ticks() {
    // a single empty column: every grain falls straight through
    let g = Grid::new(6, 1);
    let mut sim = Simulator::new(g, 0, 0, 2);
    let ev0 = sim.tick().unwrap();
    assert_eq!(ev0, vec![Event::Moved { id: 0, x: 0, y: 1 }]);
    let ev1 = sim.tick().unwrap();
    assert_eq!(ev1, vec![Event::Moved { id: 0, x: 0, y: 2 }]);
    let ev2 = sim.tick().unwrap();
    assert_eq!(
        ev2,
        vec![Event::Moved { id: 0, x: 0, y: 3 }, Event::Moved { id: 1, x: 0, y: 1 }]
    );
    assert_eq!(sim.ticks(), 3);
    assert!(!sim.is_terminal());
}

#[test]
fn single_column_grains_void_forever_and_never_terminate() {
    let g = Grid::new(4, 1);
    let mut sim = Simulator::new(g, 0, 0, 1);
    for _ in 0..200 {
        sim.tick().unwrap();
    }
    assert!(sim.voided_count() > 10);
    assert_eq!(sim.settled_count(), 0);
    assert!(!sim.is_terminal());
}

#[test]
fn blocked_source_raises_the_terminal_flag_and_stops_the_run() {
    // a 2-row cave over solid rock and width 3 walls: the column under the
    // source fills, then the source cell itself settles
    let mut g = Grid::new(2, 3);
    for c in 0..3 {
        g.put(1, c, Cell::Rock);
    }
    g.put(0, 0, Cell::Sand);
    g.put(0, 2, Cell::Sand);
    let mut sim = Simulator::new(g, 1, 0, 2);
    let done = sim.run(50).unwrap();
    assert!(done);
    assert!(sim.is_terminal());
    assert_eq!(sim.settled_count(), 1);
    assert_eq!(sim.grid().at(0, 1), Cell::Sand);
    // once terminal, further ticks change nothing
    let ev = sim.tick().unwrap();
    assert!(ev.is_empty());
    assert_eq!(sim.settled_count(), 1);
}
