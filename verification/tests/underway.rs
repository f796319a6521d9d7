use space_trucking::sim::barter::tiles_of;
use space_trucking::sim::cargo::{Kind, Loc, Piece, VARIANTS, dress_fit, first_fit, placement_legal};
use space_trucking::sim::encounter::{Encounter, EncounterKind, Encounters};
use space_trucking::sim::room::{CABIN, RoomId, RoomKind, Rooms, Tile};
use space_trucking::sim::map::{ShipState, WANDERER};
use space_trucking::sim::underway::{
    FLUFF_CAP, FLUFF_WINDOW, PARADE_AT, SALT_FLUFF, STOKE_PER_FLAM, STOKE_PERIOD, breed_fluffs,
    feed_burner, spawn_in_hold, steal_crate, walk_aboard, wanderer_retry,
};
use space_trucking::sim::{Held, splitmix};

fn piece(id: u32, kind: Kind, loc: Loc) -> Piece {
    Piece {
        id,
        kind,
        variant: 0,
        gnawed: false,
        loc,
    }
}

fn hold(room: RoomId, (x, y): (u8, u8)) -> Loc {
    Loc::Hold { room, x, y }
}

fn carrying(id: u32, origin: Loc) -> Option<Held> {
    Some(Held {
        piece: id,
        origin,
        legal: true,
    })
}

#[test]
fn the_hangar_seizes_the_first_suspicious_crate_and_the_parade_starts_once() {
    let rooms = Rooms::new();
    let mut pieces = vec![
        piece(1, Kind::RationBricks, hold(CABIN, (2, 2))),
        piece(2, Kind::VeryMysteriousCrate, hold(CABIN, (4, 2))),
        piece(3, Kind::SuspiciousCrate, hold(CABIN, (6, 2))),
    ];
    let mut held = vec![carrying(2, pieces[1].loc), carrying(1, pieces[0].loc)];
    let mut deliveries = PARADE_AT - 3;
    let mut parade_at = None;

    assert_eq!(
        steal_crate(&rooms, &mut pieces, &mut held, &mut deliveries, &mut parade_at, 77),
        Some(true),
        "four deliveries fill the counter"
    );
    assert_eq!(pieces.iter().map(|p| p.id).collect::<Vec<_>>(), vec![1, 3]);
    assert_eq!(deliveries, PARADE_AT + 1);
    assert_eq!(parade_at, Some(77));
    assert_eq!(held[0], None, "the carry of the seized crate drops");
    assert!(held[1].is_some());

    assert_eq!(
        steal_crate(&rooms, &mut pieces, &mut held, &mut deliveries, &mut parade_at, 90),
        Some(false),
        "the parade starts only once"
    );
    assert_eq!(pieces.iter().map(|p| p.id).collect::<Vec<_>>(), vec![1]);
    assert_eq!(deliveries, PARADE_AT + 2);
    assert_eq!(parade_at, Some(77));

    assert_eq!(
        steal_crate(&rooms, &mut pieces, &mut held, &mut deliveries, &mut parade_at, 99),
        None
    );
    assert_eq!(deliveries, PARADE_AT + 2);
}

#[test]
fn a_crate_in_a_room_that_stays_behind_is_not_seized() {
    let mut rooms = Rooms::new();
    let trade = rooms.spawn(RoomKind::Trade, CABIN).expect("the dock has room");
    let mut pieces = vec![piece(4, Kind::SuspiciousCrate, hold(trade, (2, 2)))];
    let mut held = vec![None];
    let mut deliveries = 0;
    let mut parade_at = None;
    assert_eq!(
        steal_crate(&rooms, &mut pieces, &mut held, &mut deliveries, &mut parade_at, 1),
        None
    );
    assert_eq!(pieces.len(), 1);
    assert_eq!(deliveries, 0);
}

#[test]
fn the_stoker_feeds_the_lowest_occupied_hopper_cell_on_the_beat() {
    let rooms = Rooms::new();
    let burner = rooms.find(RoomKind::Burner).expect("the ship has a burner");
    let cells = tiles_of(&rooms, burner, Tile::Consume);
    assert!(cells.len() >= 6);
    let mut pieces = vec![
        piece(1, Kind::ScrapAlloy, hold(burner, cells[5])),
        piece(2, Kind::Couch, hold(burner, cells[2])),
        piece(3, Kind::Fluff, hold(burner, cells[2])),
        piece(4, Kind::Couch, hold(CABIN, (2, 2))),
    ];
    let mut marks = vec![2, 9];
    let mut held = vec![carrying(2, pieces[1].loc), None];
    let mut stoke = 10;
    let quiet = Encounters { current: None };

    assert_eq!(
        feed_burner(&rooms, &mut pieces, &mut marks, &mut held, &mut stoke, &quiet, STOKE_PERIOD + 1),
        None,
        "off the beat the shovel rests"
    );
    assert_eq!(pieces.len(), 4);

    assert_eq!(
        feed_burner(&rooms, &mut pieces, &mut marks, &mut held, &mut stoke, &quiet, STOKE_PERIOD * 2),
        Some(Kind::Couch)
    );
    assert_eq!(pieces.iter().map(|p| p.id).collect::<Vec<_>>(), vec![1, 3, 4]);
    assert_eq!(marks, vec![9]);
    assert_eq!(held, vec![None, None]);
    assert_eq!(stoke, 10 + 3 * STOKE_PER_FLAM);

    assert_eq!(
        feed_burner(&rooms, &mut pieces, &mut marks, &mut held, &mut stoke, &quiet, STOKE_PERIOD * 3),
        Some(Kind::Fluff),
        "the next piece on the same cell goes next"
    );
    assert_eq!(
        feed_burner(&rooms, &mut pieces, &mut marks, &mut held, &mut stoke, &quiet, STOKE_PERIOD * 4),
        Some(Kind::ScrapAlloy),
        "slag burns for nothing"
    );
    assert_eq!(stoke, 10 + 6 * STOKE_PER_FLAM);
    assert_eq!(pieces.iter().map(|p| p.id).collect::<Vec<_>>(), vec![4]);
    assert_eq!(
        feed_burner(&rooms, &mut pieces, &mut marks, &mut held, &mut stoke, &quiet, STOKE_PERIOD * 5),
        None,
        "an empty hopper feeds nothing"
    );
}

#[test]
fn an_open_encounter_pauses_the_shovel() {
    let rooms = Rooms::new();
    let burner = rooms.find(RoomKind::Burner).expect("the ship has a burner");
    let cells = tiles_of(&rooms, burner, Tile::Consume);
    let mut pieces = vec![piece(1, Kind::Couch, hold(burner, cells[0]))];
    let mut marks = Vec::new();
    let mut held = Vec::new();
    let mut stoke = 0;
    let watched = Encounters {
        current: Some(Encounter {
            kind: EncounterKind::Derelict,
            start: 0,
            end: 10_000,
            opened: true,
            closed: false,
            used: false,
        }),
    };
    assert_eq!(
        feed_burner(&rooms, &mut pieces, &mut marks, &mut held, &mut stoke, &watched, STOKE_PERIOD),
        None
    );
    assert_eq!(pieces.len(), 1);
    assert_eq!(stoke, 0);
}

/// The breeding moment of window zero for `seed`.
fn breeding_tick(seed: u64) -> u64 {
    splitmix(seed ^ SALT_FLUFF, 0) % FLUFF_WINDOW
}

#[test]
fn the_eldest_fluff_buds_into_its_first_free_neighbour() {
    let rooms = Rooms::new();
    let seed = 42;
    let tick = breeding_tick(seed);
    let (room, x, y) = first_fit(&rooms, &[], 100, Kind::Fluff).expect("the cabin takes a fluff");
    let mut pieces = vec![
        piece(9, Kind::Fluff, hold(room, (x, y))),
        piece(5, Kind::RationBricks, hold(CABIN, (20, 20))),
    ];
    let (x2, y2) = (x + 3, y);
    pieces.push(piece(7, Kind::Fluff, Loc::Hold { room, x: x2, y: y2 }));
    let mut next = 100;
    let mut rng = fastrand::Rng::with_seed(7);

    assert!(
        !breed_fluffs(&rooms, &mut pieces, &mut next, &mut rng, seed, tick + 1),
        "only the window's moment breeds"
    );
    assert_eq!(pieces.len(), 3);

    let before = pieces.clone();
    let expected = [
        (x2.wrapping_sub(1), y2),
        (x2 + 1, y2),
        (x2, y2.wrapping_sub(1)),
        (x2, y2 + 1),
    ]
    .into_iter()
    .find(|&(nx, ny)| placement_legal(&rooms, &before, 100, Kind::Fluff, room, nx, ny));
    let born = breed_fluffs(&rooms, &mut pieces, &mut next, &mut rng, seed, tick);
    assert_eq!(born, expected.is_some());
    if let Some((nx, ny)) = expected {
        assert_eq!(next, 101);
        let bud = pieces[3];
        assert_eq!(bud.id, 100);
        assert_eq!(bud.kind, Kind::Fluff);
        assert_eq!(bud.loc, Loc::Hold { room, x: nx, y: ny }, "the eldest (id 7) buds");
        assert!(bud.variant < VARIANTS);
        assert!(!bud.gnawed);
    }
}

#[test]
fn a_full_hold_of_fluffs_breeds_no_more() {
    let rooms = Rooms::new();
    let seed = 5;
    let tick = breeding_tick(seed);
    let mut pieces: Vec<Piece> = (0..FLUFF_CAP as u32)
        .map(|i| piece(i, Kind::Fluff, hold(CABIN, (2 * i as u8, 2))))
        .collect();
    let mut next = 50;
    let mut rng = fastrand::Rng::with_seed(1);
    assert!(!breed_fluffs(&rooms, &mut pieces, &mut next, &mut rng, seed, tick));
    assert_eq!(pieces.len(), FLUFF_CAP);
    assert_eq!(next, 50);
}

#[test]
fn free_cargo_lands_on_the_first_legal_berth_aboard() {
    let rooms = Rooms::new();
    let mut pieces = Vec::new();
    let mut next = 12;
    let mut rng = fastrand::Rng::with_seed(3);
    let first = first_fit(&rooms, &pieces, 12, Kind::RationBricks).expect("the cabin has room");
    assert!(spawn_in_hold(&rooms, &mut pieces, &mut next, &mut rng, Kind::RationBricks));
    assert_eq!(next, 13);
    assert_eq!(pieces.len(), 1);
    assert_eq!(pieces[0].id, 12);
    assert_eq!(pieces[0].kind, Kind::RationBricks);
    assert_eq!(pieces[0].loc, Loc::Hold { room: first.0, x: first.1, y: first.2 });

    assert!(
        !spawn_in_hold(&rooms, &mut pieces, &mut next, &mut rng, Kind::Rug),
        "a covering has no occupancy berth"
    );
    assert_eq!(next, 13);
    assert_eq!(pieces.len(), 1);
}

/// The ship docked at the wanderer with a market alongside, and the
/// market's offer cells.
fn at_the_wanderer() -> (Rooms, RoomId, Vec<(u8, u8)>) {
    let mut rooms = Rooms::new();
    let trade = rooms.spawn(RoomKind::Trade, CABIN).expect("the dock has room");
    let offer = tiles_of(&rooms, trade, Tile::Offer);
    assert!(offer.len() >= 5);
    (rooms, trade, offer)
}

#[test]
fn the_wanderer_takes_three_crates_and_leaves_a_very_mysterious_one() {
    let (rooms, trade, offer) = at_the_wanderer();
    let mut pieces = vec![
        piece(9, Kind::MysteriousCrate, hold(trade, offer[0])),
        piece(4, Kind::MysteriousCrate, hold(trade, offer[1])),
        piece(6, Kind::RationBricks, hold(trade, offer[2])),
        piece(7, Kind::MysteriousCrate, hold(trade, offer[3])),
        piece(5, Kind::MysteriousCrate, hold(trade, offer[4])),
        piece(2, Kind::MysteriousCrate, hold(CABIN, (2, 2))),
    ];
    let mut held = vec![carrying(4, pieces[1].loc), carrying(9, pieces[0].loc)];
    let mut next = 40;
    let mut rng = fastrand::Rng::with_seed(11);
    let berth = first_fit(&rooms, &pieces, 40, Kind::VeryMysteriousCrate).expect("a berth waits aboard");
    let docked = ShipState::Docked(WANDERER);
    assert_eq!(
        wanderer_retry(docked, &rooms, &mut pieces, &mut held, &mut next, &mut rng),
        Some(true)
    );
    assert_eq!(
        pieces.iter().map(|p| p.id).collect::<Vec<_>>(),
        vec![9, 6, 2, 40],
        "the three lowest offered crates go; the bricks, a fourth crate and cabin cargo stay"
    );
    let gift = pieces[3];
    assert_eq!(gift.kind, Kind::VeryMysteriousCrate);
    assert_eq!(gift.loc, Loc::Hold { room: berth.0, x: berth.1, y: berth.2 });
    assert_eq!(next, 41);
    assert_eq!(held[0], None, "a carried crate that was taken drops");
    assert!(held[1].is_some());
}

#[test]
fn the_wanderer_waits_for_the_whole_toll() {
    let (rooms, trade, offer) = at_the_wanderer();
    let mut pieces = vec![
        piece(1, Kind::MysteriousCrate, hold(trade, offer[0])),
        piece(2, Kind::MysteriousCrate, hold(trade, offer[1])),
        piece(3, Kind::SuspiciousCrate, hold(trade, offer[2])),
    ];
    let before = pieces.clone();
    let mut held = vec![None];
    let mut next = 10;
    let mut rng = fastrand::Rng::with_seed(1);
    assert_eq!(
        wanderer_retry(ShipState::Docked(WANDERER), &rooms, &mut pieces, &mut held, &mut next, &mut rng),
        None,
        "two mysterious crates are not three"
    );
    pieces.push(piece(4, Kind::MysteriousCrate, hold(trade, offer[3])));
    let four = pieces.clone();
    assert_eq!(
        wanderer_retry(ShipState::Docked(6), &rooms, &mut pieces, &mut held, &mut next, &mut rng),
        None,
        "only the wanderer takes the toll"
    );
    assert_eq!(pieces, four);
    assert_eq!(next, 10);
    assert_ne!(before, four);
}

#[test]
fn the_players_cargo_walks_aboard_and_the_rooms_stock_stays() {
    let mut rooms = Rooms::new();
    let trade = rooms.spawn(RoomKind::Trade, CABIN).expect("the dock has room");
    let plain = tiles_of(&rooms, trade, Tile::Plain);
    let stock = tiles_of(&rooms, trade, Tile::Stock);
    let mut pieces = vec![
        piece(1, Kind::RationBricks, hold(trade, plain[0])),
        piece(2, Kind::Seedlings, hold(trade, stock[0])),
        piece(3, Kind::PerfumeVial, hold(CABIN, (20, 20))),
    ];
    let aboard = first_fit(&rooms, &pieces, 1, Kind::RationBricks).expect("the ship has room");
    walk_aboard(&rooms, &mut pieces, trade);
    assert_eq!(pieces[0].loc, Loc::Hold { room: aboard.0, x: aboard.1, y: aboard.2 });
    assert_eq!(pieces[1].loc, hold(trade, stock[0]), "the room's own goods stay");
    assert_eq!(pieces[2].loc, hold(CABIN, (20, 20)), "cargo elsewhere is not touched");
    assert_eq!(pieces.len(), 3, "nothing is lost");
}

#[test]
fn a_covering_walks_to_the_first_place_it_may_be_laid() {
    let mut rooms = Rooms::new();
    let trade = rooms.spawn(RoomKind::Trade, CABIN).expect("the dock has room");
    let plain = tiles_of(&rooms, trade, Tile::Plain);
    let mut pieces = vec![piece(5, Kind::Rug, Loc::Laid { room: trade, x: plain[0].0, y: plain[0].1 })];
    let laid = dress_fit(&rooms, &pieces, 5, Kind::Rug);
    walk_aboard(&rooms, &mut pieces, trade);
    match laid {
        Some((room, x, y)) => assert_eq!(pieces[0].loc, Loc::Laid { room, x, y }),
        None => assert_eq!(pieces[0].loc, Loc::Laid { room: trade, x: plain[0].0, y: plain[0].1 }),
    }
}

/// Splitmix folds its salt into its state: a salted mix is the unsalted
/// mix of the state offset by the salt's multiple of the constant.
#[test]
fn splitmix_folds_its_salt_into_its_state() {
    for (state, salt) in [(0u64, 0u64), (1, 2), (0xDEAD_BEEF, 7), (u64::MAX, u64::MAX), (42, 0x1234_5678_9ABC)] {
        let folded = state.wrapping_add(salt.wrapping_mul(0xBF58_476D_1CE4_E5B9));
        assert_eq!(splitmix(state, salt), splitmix(folded, 0));
    }
    assert_ne!(splitmix(1, 2), splitmix(1, 3), "different salts mix apart");
    assert_eq!(splitmix(0, 0), 0xE220_A839_7B1D_CDAF, "the finalizer of the first splitmix64 output");
}
