use space_trucking::sim::cargo::{Kind, Loc, Piece};
use space_trucking::sim::encounter::{
    AD_SWATS, Drone, Drones, Encounter, EncounterKind, Encounters, Signal,
};
use space_trucking::sim::event::{
    CREAK_WINDOW, Events, OMEN_LEAD_TICKS, OMEN_TAIL_TICKS, OmenSignal, Phase, creak,
};
use space_trucking::sim::room::{CABIN, Refusal, RoomId, RoomKind, Rooms, Tile};
use space_trucking::sim::{Held, drop_targets, launch_gate, offer_pending, part, part_check};

fn piece(id: u32, kind: Kind, loc: Loc) -> Piece {
    Piece {
        id,
        kind,
        variant: 0,
        gnawed: false,
        loc,
    }
}

/// The first cell of `kind`'s net that reads `tile`.
fn cell_of(kind: RoomKind, tile: Tile) -> (u8, u8) {
    let (w, h) = kind.grid();
    for y in 0..h {
        for x in 0..w {
            if kind.tile_of(x, y) == Some(tile) {
                return (x, y);
            }
        }
    }
    panic!("no {tile:?} cell in {kind:?}");
}

/// The ship as launched, with a trade room called alongside.
fn docked() -> (Rooms, RoomId) {
    let mut rooms = Rooms::new();
    let trade = rooms.spawn(RoomKind::Trade, CABIN).expect("the dock has room");
    (rooms, trade)
}

#[test]
fn the_detach_gates_answer_in_order() {
    let (rooms, trade) = docked();
    let (sx, sy) = cell_of(RoomKind::Trade, Tile::Stock);
    let (px, py) = cell_of(RoomKind::Trade, Tile::Plain);
    let goods = piece(0, Kind::RationBricks, Loc::Hold { room: trade, x: sx, y: sy });
    let ours = piece(1, Kind::Seedlings, Loc::Hold { room: CABIN, x: 5, y: 5 });
    assert_eq!(part_check(&rooms, &[goods, ours], &[CABIN], CABIN), Err(Refusal::Root));
    assert_eq!(part_check(&rooms, &[goods, ours], &[CABIN], 9), Err(Refusal::Absent));
    assert_eq!(part_check(&rooms, &[goods, ours], &[CABIN, trade], trade), Err(Refusal::Aboard));
    let left = piece(2, Kind::Seedlings, Loc::Hold { room: trade, x: px, y: py });
    assert_eq!(part_check(&rooms, &[goods, ours, left], &[CABIN], trade), Err(Refusal::Cargo));
    // The room's own goods go with it; nothing of ours is in there.
    assert_eq!(part_check(&rooms, &[goods, ours], &[CABIN], trade), Ok(()));
}

#[test]
fn parting_takes_the_rooms_own_goods_and_nothing_of_ours() {
    let (mut rooms, trade) = docked();
    let (sx, sy) = cell_of(RoomKind::Trade, Tile::Stock);
    let goods = piece(7, Kind::RationBricks, Loc::Hold { room: trade, x: sx, y: sy });
    let ours = piece(3, Kind::Seedlings, Loc::Hold { room: CABIN, x: 5, y: 5 });
    let mut pieces = vec![ours, goods];
    let mut marks = vec![7, 3];
    let mut held = vec![
        Some(Held {
            piece: 7,
            origin: goods.loc,
            legal: false,
        }),
        None,
        Some(Held {
            piece: 3,
            origin: ours.loc,
            legal: true,
        }),
    ];
    assert_eq!(part_check(&rooms, &pieces, &[CABIN], trade), Ok(()));
    part(&mut rooms, &mut pieces, &mut marks, &mut held, trade);
    assert!(rooms.get(trade).is_none(), "the room is gone");
    assert!(rooms.get(CABIN).is_some());
    assert_eq!(pieces, vec![ours]);
    assert_eq!(marks, vec![3]);
    assert_eq!(held[0], None);
    assert_eq!(held[1], None);
    assert_eq!(held[2].map(|h| h.piece), Some(3));
}

#[test]
fn the_launch_gate_reads_bodies_cargo_and_offers() {
    let (rooms, trade) = docked();
    let (ox, oy) = cell_of(RoomKind::Trade, Tile::Offer);
    let (px, py) = cell_of(RoomKind::Trade, Tile::Plain);
    let ours = piece(0, Kind::Seedlings, Loc::Hold { room: CABIN, x: 5, y: 5 });
    // A calling room alongside with nothing on its offer area still holds
    // nothing back.
    assert_eq!(launch_gate(&rooms, &[ours], &[CABIN]), Ok(()));
    assert_eq!(launch_gate(&rooms, &[ours], &[trade]), Err(Refusal::Aboard));
    let left = piece(1, Kind::Seedlings, Loc::Hold { room: trade, x: px, y: py });
    assert_eq!(launch_gate(&rooms, &[ours, left], &[CABIN]), Err(Refusal::Cargo));
    let offered = piece(2, Kind::Seedlings, Loc::Hold { room: trade, x: ox, y: oy });
    assert!(offer_pending(&rooms, &[ours, offered], trade));
    assert!(!offer_pending(&rooms, &[ours], trade));
    // A proposal is the player's own cargo in a calling room: the cargo
    // gate speaks first.
    assert_eq!(launch_gate(&rooms, &[ours, offered], &[CABIN]), Err(Refusal::Cargo));
    // An event room alongside is unfinished business.
    let mut wrecked = Rooms::new();
    wrecked.spawn(RoomKind::Wreck, CABIN).expect("room for the wreck");
    assert_eq!(launch_gate(&wrecked, &[ours], &[CABIN]), Err(Refusal::Pending));
    // Nothing alongside: the lever throws.
    assert_eq!(launch_gate(&Rooms::new(), &[ours], &[CABIN, CABIN]), Ok(()));
}

#[test]
fn drop_targets_glow_where_a_release_would_land() {
    let (rooms, trade) = docked();
    let vial = piece(0, Kind::PerfumeVial, Loc::Hold { room: CABIN, x: 5, y: 5 });
    let cabinet = piece(1, Kind::Cabinet, Loc::Hold { room: CABIN, x: 3, y: 3 });
    let targets = drop_targets(&rooms, &[vial, cabinet], &vial);
    assert!(targets.berth && targets.stow && targets.offer && targets.consume);
    // No cabinet aboard: no cubby glows.
    let targets = drop_targets(&rooms, &[vial], &vial);
    assert!(targets.berth && !targets.stow);
    // Nothing calling alongside: no offer area glows.
    let targets = drop_targets(&Rooms::new(), &[vial, cabinet], &vial);
    assert!(!targets.offer && targets.consume);
    // The humming crate never glows the fire.
    let crate_ = piece(2, Kind::SuspiciousCrate, Loc::Hold { room: CABIN, x: 6, y: 6 });
    assert!(!drop_targets(&rooms, &[crate_], &crate_).consume);
    // A room's own goods are not the player's to drop anywhere.
    let (sx, sy) = cell_of(RoomKind::Trade, Tile::Stock);
    let goods = piece(3, Kind::RationBricks, Loc::Hold { room: trade, x: sx, y: sy });
    let targets = drop_targets(&rooms, &[goods], &goods);
    assert!(!targets.berth && !targets.stow && !targets.offer && !targets.consume);
}

#[test]
fn a_suspicious_departure_schedules_the_omen_in_the_middle_half() {
    for leg in [4_u64, 1000, 36_000, 123_457] {
        let mut events = Events::new();
        for n in 1..20_u64 {
            events.on_depart(0xFEED, leg, true);
            assert_eq!(events.leg_counter, n);
            let at = events.jump_at.expect("a crate aboard schedules an omen");
            assert!(at >= leg / 2 && (at < leg * 3 / 4 || at == leg / 2), "{at} on {leg}");
        }
        events.on_depart(0xFEED, leg, false);
        assert_eq!(events.jump_at, None);
    }
}

#[test]
fn an_omen_starts_jumps_once_and_ends() {
    let leg = 10_000_u64;
    let mut events = Events {
        leg_counter: 1,
        jump_at: Some(4_000),
        phase: Phase::Idle,
    };
    let mut progress = 3_990_u64;
    let mut cues = Vec::new();
    for _ in 0..10 {
        events.travel_tick(&mut progress, leg, &mut cues);
        assert!(cues.is_empty(), "not due yet");
        progress += 1;
    }
    let mut ticks = 0_u32;
    while events.phase != Phase::Idle || cues.is_empty() {
        events.travel_tick(&mut progress, leg, &mut cues);
        ticks += 1;
        assert!(ticks < 1_000, "the episode never closed");
    }
    assert_eq!(ticks, 1 + OMEN_LEAD_TICKS + OMEN_TAIL_TICKS);
    assert_eq!(cues, vec![OmenSignal::Start, OmenSignal::Jump, OmenSignal::End]);
    assert_eq!(progress, 4_000 + (leg - 4_000) * 3 / 4);
    assert_eq!(events.jump_at, None);
}

#[test]
fn docking_mid_omen_closes_the_episode() {
    let mut events = Events {
        leg_counter: 2,
        jump_at: Some(10),
        phase: Phase::Omen { elapsed: 40 },
    };
    let mut cues = Vec::new();
    events.on_arrive(&mut cues);
    assert_eq!(cues, vec![OmenSignal::End]);
    assert_eq!(events.phase, Phase::Idle);
    assert_eq!(events.jump_at, None);
    cues.clear();
    events.on_arrive(&mut cues);
    assert!(cues.is_empty(), "an idle leg has nothing to close");
}

#[test]
fn every_creak_window_creaks_exactly_once() {
    for window in 0..50_u64 {
        let creaks: Vec<u64> = (window * CREAK_WINDOW..(window + 1) * CREAK_WINDOW)
            .filter_map(|tick| creak(0xC0FFEE, tick))
            .collect();
        assert_eq!(creaks.len(), 1, "window {window}");
        assert!(creaks[0] < 800);
    }
}

#[test]
fn an_encounter_window_opens_closes_and_leaves_flotsam() {
    let mut encounters = Encounters {
        current: Some(Encounter {
            kind: EncounterKind::Derelict,
            start: 100,
            end: 200,
            opened: false,
            closed: false,
            used: false,
        }),
    };
    let mut cues = Vec::new();
    assert!(encounters.travel_tick(1, 1, 50, 50, false, &mut cues).is_empty());
    assert!(cues.is_empty());
    let flotsam = encounters.travel_tick(1, 1, 100, 100, false, &mut cues);
    assert_eq!(flotsam.len(), 2, "a derelict opens its hold");
    assert!(matches!(
        flotsam[0],
        Kind::GildedIdol | Kind::CryoCore | Kind::BrinePearls
    ));
    assert!(matches!(flotsam[1], Kind::MysteriousCrate | Kind::ScrapAlloy));
    assert_eq!(cues, vec![Signal::EncounterStart]);
    assert!(encounters.current.unwrap().open());
    cues.clear();
    assert!(encounters.travel_tick(1, 1, 200, 200, false, &mut cues).is_empty());
    assert_eq!(cues, vec![Signal::EncounterEnd]);
    assert!(!encounters.current.unwrap().open());
}

#[test]
fn a_jump_past_an_unopened_window_skips_it_silently() {
    let mut encounters = Encounters {
        current: Some(Encounter {
            kind: EncounterKind::MeteorShower,
            start: 100,
            end: 200,
            opened: false,
            closed: false,
            used: false,
        }),
    };
    let mut cues = Vec::new();
    assert!(encounters.travel_tick(3, 1, 500, 500, false, &mut cues).is_empty());
    assert!(cues.is_empty());
    assert!(encounters.current.unwrap().closed);
}

#[test]
fn a_meteor_shower_leaves_scrap_and_a_whale_answers_a_garden_once() {
    let mut shower = Encounters {
        current: Some(Encounter {
            kind: EncounterKind::MeteorShower,
            start: 0,
            end: 1_000,
            opened: true,
            closed: false,
            used: false,
        }),
    };
    let mut cues = Vec::new();
    shower.travel_tick(5, 2, 90, 7, false, &mut cues);
    assert!(matches!(cues[..], [Signal::Creak { roll }] if roll < 700));
    cues.clear();
    assert_eq!(shower.travel_tick(5, 2, 1_000, 8, false, &mut cues), vec![Kind::ScrapAlloy]);
    assert_eq!(cues, vec![Signal::EncounterEnd]);

    let mut whale = Encounters {
        current: Some(Encounter {
            kind: EncounterKind::Whale,
            start: 0,
            end: 10_000,
            opened: true,
            closed: false,
            used: false,
        }),
    };
    cues.clear();
    whale.travel_tick(5, 2, 300, 9, true, &mut cues);
    assert_eq!(cues, vec![Signal::WhaleReply]);
    cues.clear();
    whale.travel_tick(5, 2, 900, 10, true, &mut cues);
    assert!(cues.is_empty(), "the reply is one-shot");
    let mut cues = Vec::new();
    whale.on_dock(&mut cues);
    assert_eq!(cues, vec![Signal::EncounterEnd]);
    assert!(whale.current.is_none());
}

#[test]
fn short_legs_carry_no_encounter_and_no_drone() {
    for legs in 0..200_u64 {
        let mut encounters = Encounters::new();
        encounters.on_depart(42, legs, 3_599);
        assert!(encounters.current.is_none());
        let mut drones = Drones::new();
        drones.on_depart(42, legs, 3_599);
        assert!(drones.drone.is_none());
    }
    // Long legs roll both, some of the time, and the roll is a pure
    // function of the seed and the leg.
    let mut any = false;
    for legs in 0..200_u64 {
        let mut a = Encounters::new();
        let mut b = Encounters::new();
        a.on_depart(42, legs, 90_000);
        b.on_depart(42, legs, 90_000);
        assert_eq!(a.current, b.current);
        if let Some(enc) = a.current {
            any = true;
            assert!(enc.start < enc.end && enc.end <= 90_000 - 600);
        }
    }
    assert!(any);
}

#[test]
fn two_swats_knock_the_drone_off() {
    let mut drones = Drones {
        drone: Some(Drone {
            start: 10,
            end: 5_000,
            attached: false,
            gone: false,
            swats: 0,
        }),
    };
    let mut cues = Vec::new();
    assert!(!drones.on_press(&mut cues), "nothing to swat before it latches on");
    drones.travel_tick(10, &mut cues);
    assert_eq!(cues, vec![Signal::AdStart]);
    assert!(drones.advertising());
    cues.clear();
    for _ in 1..AD_SWATS {
        assert!(drones.on_press(&mut cues));
    }
    assert_eq!(cues, vec![Signal::AdSwat]);
    assert!(drones.on_press(&mut cues));
    assert_eq!(cues, vec![Signal::AdSwat, Signal::AdSwat, Signal::AdEnd]);
    assert!(!drones.advertising());
    cues.clear();
    drones.on_dock(&mut cues);
    assert!(cues.is_empty(), "a drone already gone leaves in silence");
}
