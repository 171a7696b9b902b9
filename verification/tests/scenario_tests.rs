use sand_dropper::parse::{floor_cave, parse_cave};
use sand_dropper::sim::{Event, Simulator};

const ROCKS: &[u8] = b"498,4 -> 498,6 -> 496,6\n503,4 -> 502,4 -> 502,9 -> 494,9";

// A spawn cadence larger than any possible grain lifetime, so grains fall
// one at a time and the settle counts below are exact.
const CADENCE: usize = 20;

#[test]
fn open_cave_settles_twenty_four_grains_before_one_voids() {
    let grid = parse_cave(ROCKS, (12, 200), (500, 0), -400).unwrap();
    let mut sim = Simulator::new(grid, 100, 0, CADENCE);
    while sim.voided_count() == 0 && sim.ticks() < 20_000 {
        sim.tick().unwrap();
    }
    assert_eq!(sim.voided_count(), 1);
    assert_eq!(sim.settled_count(), 24);
    assert!(!sim.is_terminal());
}

#[test]
fn open_cave_keeps_voiding_grains_indefinitely() {
    let grid = parse_cave(ROCKS, (12, 200), (500, 0), -400).unwrap();
    let mut sim = Simulator::new(grid, 100, 0, CADENCE);
    while sim.voided_count() == 0 && sim.ticks() < 20_000 {
        sim.tick().unwrap();
    }
    let first = sim.voided_count();
    for _ in 0..2_000 {
        sim.tick().unwrap();
    }
    assert!(sim.voided_count() > first + 10);
    assert_eq!(sim.settled_count(), 24);
    assert!(!sim.is_terminal());
}

#[test]
fn floored_cave_settles_ninety_three_grains_then_blocks_the_source() {
    let mut grid = parse_cave(ROCKS, (200, 200), (500, 0), -400).unwrap();
    let (pad, lowest) = floor_cave(&mut grid).unwrap();
    assert_eq!(lowest, 9);
    assert_eq!(pad, 0);
    let mut sim = Simulator::new(grid, 100 + pad, 0, CADENCE);
    let done = sim.run(50_000).unwrap();
    assert!(done);
    assert!(sim.is_terminal());
    assert_eq!(sim.settled_count(), 93);
    assert_eq!(sim.voided_count(), 0);
}

#[test]
fn identical_runs_report_identical_event_sequences() {
    let mut streams: Vec<Vec<Event>> = Vec::new();
    for _ in 0..2 {
        let mut grid = parse_cave(ROCKS, (200, 200), (500, 0), -400).unwrap();
        let (pad, _) = floor_cave(&mut grid).unwrap();
        let mut sim = Simulator::new(grid, 100 + pad, 0, CADENCE);
        let mut events: Vec<Event> = Vec::new();
        while !sim.is_terminal() && sim.ticks() < 50_000 {
            events.extend(sim.tick().unwrap());
        }
        assert!(sim.is_terminal());
        streams.push(events);
    }
    assert_eq!(streams[0], streams[1]);
    // and the settle events alone, in order, are identical too
    let settles: Vec<&Event> = streams[0]
        .iter()
        .filter(|e| matches!(e, Event::Settled { .. }))
        .collect();
    assert_eq!(settles.len(), 93);
}
