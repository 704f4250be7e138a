use nbody::buffer::Color;
use nbody::sim::{Circle, RunState, Simulation};

const BLACK: Color = Color { r: 0, g: 0, b: 0 };
const WHITE: Color = Color { r: 255, g: 255, b: 255 };

fn rgb_at(frame: &[u8], width: u32, x: u32, y: u32) -> (u8, u8, u8) {
    let i = ((y * width + x) * 4) as usize;
    (frame[i], frame[i + 1], frame[i + 2])
}

#[test]
fn setup_with_zero_bodies_succeeds_and_ticks_all_background() {
    let mut sim = Simulation::new(8, 8);
    assert!(!sim.is_running());
    sim.start();
    assert!(sim.is_running());

    let no_bodies: Vec<Circle> = Vec::new();
    let rearm = sim.tick(&no_bodies, BLACK, WHITE);
    assert!(rearm);
    assert!(sim.is_running());

    let frame = sim.frame();
    assert_eq!(frame.len(), 8 * 8 * 4);
    for p in 0..64 {
        assert_eq!(frame[4 * p], 0);
        assert_eq!(frame[4 * p + 1], 0);
        assert_eq!(frame[4 * p + 2], 0);
        assert_eq!(frame[4 * p + 3], 255);
    }
}

#[test]
fn tick_paints_every_disc_on_the_background() {
    let mut sim = Simulation::new(10, 10);
    sim.start();
    let discs = vec![
        Circle { x: 2, y: 2, radius: 1 },
        Circle { x: 7, y: 7, radius: 1 },
    ];
    let rearm = sim.tick(&discs, BLACK, WHITE);
    assert!(rearm);
    let frame = sim.frame();
    assert_eq!(rgb_at(frame, 10, 2, 2), (255, 255, 255));
    assert_eq!(rgb_at(frame, 10, 7, 7), (255, 255, 255));
    assert_eq!(rgb_at(frame, 10, 2, 3), (255, 255, 255));
    assert_eq!(rgb_at(frame, 10, 5, 5), (0, 0, 0));
    assert_eq!(rgb_at(frame, 10, 0, 9), (0, 0, 0));
}

#[test]
fn overlapping_discs_paint_their_union() {
    let mut sim = Simulation::new(6, 3);
    sim.start();
    let discs = vec![
        Circle { x: 1, y: 1, radius: 1 },
        Circle { x: 2, y: 1, radius: 1 },
    ];
    sim.tick(&discs, BLACK, WHITE);
    let frame = sim.frame();
    for x in 0..4 {
        assert_eq!(rgb_at(frame, 6, x, 1), (255, 255, 255), "column {x}");
    }
    assert_eq!(rgb_at(frame, 6, 4, 1), (0, 0, 0));
    assert_eq!(rgb_at(frame, 6, 0, 0), (0, 0, 0));
}

#[test]
fn cancellation_is_consumed_by_the_next_tick() {
    let mut sim = Simulation::new(4, 4);
    sim.start();
    let discs = vec![Circle { x: 1, y: 1, radius: 1 }];
    sim.tick(&discs, BLACK, WHITE);
    let painted = sim.frame().clone();

    sim.request_cancel();
    assert!(sim.is_running());
    let rearm = sim.tick(&discs, BLACK, WHITE);
    assert!(!rearm);
    assert!(!sim.is_running());
    assert_eq!(sim.state, RunState::Idle);
    assert_eq!(sim.frame(), &painted);
}

#[test]
fn restart_after_cancellation_rearms() {
    let mut sim = Simulation::new(4, 4);
    sim.start();
    sim.request_cancel();
    let none: Vec<Circle> = Vec::new();
    assert!(!sim.tick(&none, BLACK, WHITE));
    sim.start();
    assert!(sim.is_running());
    assert!(sim.tick(&none, BLACK, WHITE));
}

#[test]
fn frame_length_is_fixed_across_ticks() {
    let mut sim = Simulation::new(9, 7);
    sim.start();
    let discs = vec![Circle { x: 4, y: 3, radius: 2 }];
    for _ in 0..5 {
        sim.tick(&discs, BLACK, WHITE);
        assert_eq!(sim.frame().len(), 9 * 7 * 4);
    }
}
