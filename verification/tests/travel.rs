use space_trucking::sim::cargo::{Kind, Loc, Piece};
use space_trucking::sim::map::{GUILD, ShipState};
use space_trucking::sim::room::CABIN;
use space_trucking::sim::run::new_run;
use space_trucking::sim::voyage::{Voyage, fast_forward, inner_ring_locked, quiet, ready, travel_step};

const COMET: (u64, u64) = (100_000, 0);

#[test]
fn inner_ring_courses_need_papers() {
    let mut run = new_run(3, &mut fastrand::Rng::with_seed(3));
    assert!(!inner_ring_locked(run.ship, &run.rooms, &run.pieces, 0), "from the Guild anywhere goes");
    run.ship = ShipState::Docked(1);
    assert!(inner_ring_locked(run.ship, &run.rooms, &run.pieces, 0), "Earth to Venus needs a chit");
    assert!(inner_ring_locked(run.ship, &run.rooms, &run.pieces, 2), "Earth to Mars needs a chit");
    assert!(!inner_ring_locked(run.ship, &run.rooms, &run.pieces, 1), "staying put needs nothing");
    assert!(!inner_ring_locked(run.ship, &run.rooms, &run.pieces, GUILD), "the Guild is nobody's business");
    let id = run.next_piece;
    run.pieces.push(Piece { id, kind: Kind::TransitChit, variant: 0, gnawed: false, loc: Loc::Hold { room: CABIN, x: 4, y: 4 } });
    assert!(!inner_ring_locked(run.ship, &run.rooms, &run.pieces, 0), "a chit aboard opens the ring");
}

#[test]
fn a_moored_step_only_moves_the_clock() {
    let mut run = new_run(5, &mut fastrand::Rng::with_seed(5));
    let mut rng = fastrand::Rng::with_seed(1);
    let mut cues = quiet();
    assert!(ready(&run));
    travel_step(&mut run, &mut rng, COMET, &mut cues);
    assert_eq!(run.tick, 1);
    assert_eq!(run.ship, ShipState::Docked(GUILD));
}

#[test]
fn a_leg_makes_way_and_ends_in_port() {
    let mut run = new_run(7, &mut fastrand::Rng::with_seed(7));
    let mut rng = fastrand::Rng::with_seed(2);
    let mut cues = quiet();
    run.ship = ShipState::Traveling { from: GUILD, to: 7, progress: 0, leg_ticks: 10 };
    travel_step(&mut run, &mut rng, COMET, &mut cues);
    assert_eq!(run.ship, ShipState::Traveling { from: GUILD, to: 7, progress: 1, leg_ticks: 10 });
    run.stoke = 5;
    travel_step(&mut run, &mut rng, COMET, &mut cues);
    assert_eq!(run.ship, ShipState::Traveling { from: GUILD, to: 7, progress: 3, leg_ticks: 10 }, "the fire doubles the way");
    assert_eq!(run.stoke, 4, "and spends a tick of stoke");
    for _ in 0..10 {
        if run.ship == ShipState::Docked(7) {
            break;
        }
        travel_step(&mut run, &mut rng, COMET, &mut cues);
    }
    assert_eq!(run.ship, ShipState::Docked(7));
    assert_eq!(run.visits[7], 1, "the visit is counted");
    assert!(cues.voyage.contains(&Voyage::Arrive));
    assert!(run.barter.is_some_and(|b| b.station == 7 && b.visit == 1), "the port opens its market");
}

#[test]
fn catching_up_runs_every_tick_and_reports_the_arrival() {
    let mut run = new_run(9, &mut fastrand::Rng::with_seed(9));
    let mut rng = fastrand::Rng::with_seed(4);
    run.ship = ShipState::Traveling { from: GUILD, to: 3, progress: 0, leg_ticks: 20 };
    let report = fast_forward(&mut run, &mut rng, COMET, 50);
    assert_eq!(report.ticks, 50);
    assert_eq!(run.tick, 50);
    assert!(report.arrived);
    assert_eq!(run.ship, ShipState::Docked(3));
}

#[test]
fn a_paused_run_stays_put() {
    let mut run = new_run(11, &mut fastrand::Rng::with_seed(11));
    let mut rng = fastrand::Rng::with_seed(6);
    run.paused = true;
    run.ship = ShipState::Traveling { from: GUILD, to: 3, progress: 0, leg_ticks: 20 };
    let report = fast_forward(&mut run, &mut rng, COMET, 50);
    assert_eq!(report.ticks, 0);
    assert_eq!(run.tick, 0);
    assert_eq!(run.ship, ShipState::Traveling { from: GUILD, to: 3, progress: 0, leg_ticks: 20 });
}
