use space_trucking::sim::room::{
    APERTURE, CABIN, COURSES, HATCH, LADDER, MAX_ROOMS, PORTS, Port, PortId, Refusal, Room, RoomId,
    RoomKind, Rooms, ROOM_KINDS, Surf, Tile,
};

/// The cabin's net is the one the bay was drawn with, chart for chart.
#[test]
fn the_cabin_net_is_the_net_it_always_was() {
    let cabin = RoomKind::Cabin;
    assert_eq!(cabin.grid(), (22, 13));
    let mut counts = [0_usize; 6];
    for y in 0..13 {
        for x in 0..22 {
            if let Some(surf) = cabin.surface_of(x, y) {
                counts[match surf {
                    Surf::Aft => 0,
                    Surf::Port => 1,
                    Surf::Floor => 2,
                    Surf::Starboard => 3,
                    Surf::Front => 4,
                    Surf::Ceiling => 5,
                }] += 1;
            }
        }
    }
    assert_eq!(counts, [24, 21, 56, 21, 24, 56]);
    for ((ax, ay), a, (bx, by), b) in [
        ((5, 2), Surf::Aft, (5, 3), Surf::Floor),
        ((2, 5), Surf::Port, (3, 5), Surf::Floor),
        ((10, 5), Surf::Floor, (11, 5), Surf::Starboard),
        ((5, 9), Surf::Floor, (5, 10), Surf::Front),
        ((13, 5), Surf::Starboard, (14, 5), Surf::Ceiling),
    ] {
        assert_eq!(cabin.surface_of(ax, ay), Some(a));
        assert_eq!(cabin.surface_of(bx, by), Some(b));
        assert_eq!(ax.abs_diff(bx) + ay.abs_diff(by), 1);
    }
    for cell in [(11, 3), (12, 3), (11, 4), (12, 4)] {
        assert_eq!(cabin.tile_of(cell.0, cell.1), Some(Tile::Threshold));
    }
}

/// Whatever a kind declares lands wholly inside its own net, no two
/// ports share a cell, and a door sits on the wall its slot is named for.
#[test]
fn declared_ports_land_in_their_own_net_and_never_overlap() {
    for kind in ROOM_KINDS {
        let (cols, rows) = kind.grid();
        let mut seen: Vec<(u8, u8)> = Vec::new();
        for (port, declared) in kind.declared() {
            if let Port::Door { wall, .. } = declared {
                assert_eq!(wall, port, "{kind:?}'s door {port} hangs on wall {wall}");
            }
            assert!(
                matches!(declared, Port::Ladder { .. }) == (port == LADDER),
                "{kind:?} put a ladder in slot {port}"
            );
            let cells = kind
                .aperture_cells(port)
                .expect("a declared port punches cells");
            for (x, y) in cells {
                assert!(x < cols && y < rows, "{kind:?} port {port} leaves the net");
                assert!(
                    kind.surface_of(x, y).is_some(),
                    "{kind:?} port {port} punches a hole that is not a cell"
                );
                assert!(!seen.contains(&(x, y)), "{kind:?} ports share a cell");
                seen.push((x, y));
            }
        }
        for port in 0..PORTS as PortId {
            assert_eq!(
                kind.port(port).is_none(),
                kind.aperture_cells(port).is_none(),
                "{kind:?} slot {port} disagrees with itself"
            );
        }
        assert!(kind.port(PORTS as PortId).is_none());
    }
}

/// The roster, kind by kind: the cabin is extensible and everything
/// else states its business.
#[test]
fn only_the_cabin_is_extensible() {
    for (kind, doors, vertical) in [
        (RoomKind::Cabin, 4, true),
        (RoomKind::Burner, 1, false),
        (RoomKind::Trade, 1, false),
        (RoomKind::Wreck, 1, false),
        (RoomKind::Parlor, 1, false),
        (RoomKind::Pump, 1, false),
    ] {
        let declared: Vec<(PortId, Port)> = kind.declared();
        assert_eq!(
            declared
                .iter()
                .filter(|(_, port)| matches!(port, Port::Door { .. }))
                .count(),
            doors,
            "{kind:?} does not declare {doors} doors"
        );
        assert_eq!(
            kind.port(LADDER).is_some() && kind.port(HATCH).is_some(),
            vertical,
            "{kind:?} disagrees about its vertical pair"
        );
        assert_eq!(
            declared.len(),
            doors + usize::from(vertical) * 2,
            "{kind:?} declares a port nobody argued for"
        );
    }
    assert!(matches!(
        RoomKind::Burner.port(3),
        Some(Port::Door { wall: 3, .. })
    ));
}

/// Attachment has zero degrees of freedom, and the burner lands where
/// the burner has always landed.
#[test]
fn the_burner_mates_the_cabins_starboard_door() {
    let rooms = Rooms::new();
    assert_eq!(rooms.count(), 2);
    let cabin = rooms.get(CABIN).expect("the cabin is room zero");
    let burner = rooms.get(1).expect("the burner is room one");
    assert_eq!(cabin.box_rect(), (0, 0, 8, 7));
    assert_eq!(burner.box_rect(), (8, 0, 12, 3));
    assert_eq!(cabin.mates[1], Some((1, 3)));
    assert_eq!(burner.mates[3], Some((CABIN, 1)));
}

/// No two placed rooms ever share a cell, however they were spawned.
#[test]
fn no_two_rooms_ever_share_a_cell() {
    let mut rng = fastrand::Rng::with_seed(0x120E);
    for _ in 0..200 {
        let mut rooms = Rooms::new();
        for _ in 0..MAX_ROOMS {
            let kind = ROOM_KINDS[rng.usize(..ROOM_KINDS.len())];
            let from = rng.u8(..MAX_ROOMS as u8);
            let from = if rooms.get(from).is_some() {
                from
            } else {
                CABIN
            };
            let _ = rooms.spawn(kind, from);
        }
        let placed: Vec<Room> = rooms.iter().into_iter().map(|(_, room)| room).collect();
        for (i, a) in placed.iter().enumerate() {
            for b in &placed[i + 1..] {
                if a.pose.z != b.pose.z {
                    continue;
                }
                let (ax0, ay0, ax1, ay1) = a.box_rect();
                let (bx0, by0, bx1, by1) = b.box_rect();
                assert!(
                    !(ax0 < bx1 && bx0 < ax1 && ay0 < by1 && by0 < ay1),
                    "{a:?} and {b:?} interpenetrate"
                );
            }
        }
    }
}

/// The game's only detach: a room parts with everything standing behind
/// it, so the graph the ship holds is never disconnected.
fn part(rooms: &mut Rooms, id: RoomId) {
    let doomed: Vec<RoomId> = rooms
        .iter()
        .into_iter()
        .map(|(other, _)| other)
        .filter(|&other| rooms.beyond(id, other))
        .collect();
    for room in doomed {
        let _ = rooms.detach(room);
    }
}

/// A cabin always finds a berth, and a caller always fits the cabin
/// that just arrived, in adversarial spawn-and-part orders.
#[test]
fn the_cabin_frontier_never_starves() {
    let mut rng = fastrand::Rng::with_seed(0x00E5_CA9E);
    for _ in 0..300 {
        let mut rooms = Rooms::new();
        while rooms.count() < MAX_ROOMS {
            let anchors: Vec<RoomId> = rooms.iter().into_iter().map(|(id, _)| id).collect();
            let from = anchors[rng.usize(..anchors.len())];
            let mut ahead = rooms.clone();
            let berthed = ahead.spawn(RoomKind::Cabin, from);
            assert!(berthed.is_ok(), "the cabin frontier starved: {berthed:?}");
            if let Ok(fresh) = berthed {
                if ahead.count() < MAX_ROOMS {
                    for kind in ROOM_KINDS {
                        let mut alongside = ahead.clone();
                        let called = alongside.spawn(kind, fresh);
                        assert!(
                            called.is_ok(),
                            "{kind:?} starved on a fresh cabin: {called:?}"
                        );
                    }
                }
            }
            let kind = ROOM_KINDS[rng.usize(..ROOM_KINDS.len())];
            let _ = rooms.spawn(kind, from);
            if rng.u8(..4) == 0 {
                let victims: Vec<RoomId> = rooms
                    .iter()
                    .into_iter()
                    .map(|(id, _)| id)
                    .filter(|&id| id != CABIN)
                    .collect();
                if !victims.is_empty() {
                    part(&mut rooms, victims[rng.usize(..victims.len())]);
                }
            }
            if rooms.count() == 1 {
                assert!(rooms.spawn(RoomKind::Burner, CABIN).is_ok());
            }
        }
        assert_eq!(rooms.spawn(RoomKind::Cabin, CABIN), Err(Refusal::Full));
    }
}

/// The yard-fresh ship seats three callers, and the fourth is refused by
/// name.
#[test]
fn the_yard_fresh_ship_seats_every_caller_the_game_asks_for() {
    let callers = [
        RoomKind::Trade,
        RoomKind::Wreck,
        RoomKind::Parlor,
        RoomKind::Pump,
    ];
    for first in callers {
        for second in callers {
            for third in callers {
                let mut rooms = Rooms::new();
                for kind in [first, second, third] {
                    let called = rooms.spawn(kind, CABIN);
                    assert!(called.is_ok(), "{kind:?} found no door: {called:?}");
                }
                assert!(rooms.spawn(RoomKind::Trade, CABIN).is_err());
                let crew = rooms.spawn(RoomKind::Cabin, CABIN);
                assert!(crew.is_ok(), "the crew cabin starved: {crew:?}");
                assert!(rooms.spawn(RoomKind::Trade, crew.unwrap()).is_ok());
            }
        }
    }
}

/// Every refusal the attach contract can give, by name.
#[test]
fn a_seam_that_will_not_close_is_refused_by_name() {
    let mut rooms = Rooms::root(RoomKind::Cabin);
    assert!(rooms.attach(CABIN, LADDER, RoomKind::Cabin, HATCH).is_ok());
    assert_eq!(
        rooms.attach(CABIN, LADDER, RoomKind::Cabin, HATCH),
        Err(Refusal::Mated)
    );
    assert_eq!(
        rooms.attach(CABIN, HATCH, RoomKind::Cabin, 0),
        Err(Refusal::Kinds)
    );
    assert_eq!(
        rooms.attach(CABIN, 0, RoomKind::Trade, 2),
        Err(Refusal::Absent)
    );
    assert_eq!(
        rooms.attach(CABIN, LADDER, RoomKind::Trade, HATCH),
        Err(Refusal::Absent)
    );
    assert_eq!(
        rooms.attach(CABIN, 3, RoomKind::Burner, 1),
        Err(Refusal::Absent)
    );
    assert!(rooms.attach(CABIN, 3, RoomKind::Burner, 3).is_ok());
    assert_eq!(rooms.attach(9, 0, RoomKind::Trade, 0), Err(Refusal::Absent));
}

/// The offer area is never in the way in.
#[test]
fn no_offer_tile_ever_lies_in_a_doors_entry_path() {
    for kind in ROOM_KINDS {
        let (cols, rows) = kind.grid();
        let mut offers = 0;
        let mut lane = 0;
        for y in 0..rows {
            for x in 0..cols {
                if kind.entry_path(x, y) {
                    lane += 1;
                    assert_ne!(
                        kind.tile_of(x, y),
                        Some(Tile::Offer),
                        "{kind:?} chalks ({x}, {y}), which is the way in"
                    );
                }
                offers += usize::from(kind.tile_of(x, y) == Some(Tile::Offer));
            }
        }
        if matches!(kind, RoomKind::Trade | RoomKind::Parlor) {
            assert!(offers > 0, "{kind:?} has no offer area left at all");
            for want in [Surf::Floor, Surf::Front, Surf::Ceiling] {
                assert!(
                    (0..rows).any(|y| (0..cols).any(|x| kind.surface_of(x, y) == Some(want)
                        && kind.tile_of(x, y) == Some(Tile::Offer))),
                    "{kind:?} lost its whole {want:?} offer band"
                );
            }
        }
        let doors = kind
            .declared()
            .into_iter()
            .filter(|(_, port)| matches!(port, Port::Door { .. }))
            .count();
        assert_eq!(lane > 0, doors > 0, "{kind:?} disagrees about its doors");
        for (port, declared) in kind.declared() {
            let Port::Door { .. } = declared else {
                continue;
            };
            let step = kind
                .aperture_cells(port)
                .expect("a declared port punches cells");
            for (x, y) in step {
                assert!(
                    kind.entry_path(x, y),
                    "{kind:?} port {port} punches ({x}, {y}) outside its own entry path"
                );
            }
        }
    }
}

/// A room keeps the cells its own hardware stands in, and nothing else.
#[test]
fn a_room_keeps_the_cells_its_own_hardware_stands_in() {
    for kind in ROOM_KINDS {
        let (cols, rows) = kind.grid();
        let (w, h) = kind.floor();
        let (mut counter, mut corner, mut pendant, mut berths) =
            (0_usize, 0_usize, 0_usize, 0_usize);
        for y in 0..rows {
            for x in 0..cols {
                let Some(tile) = kind.tile_of(x, y) else {
                    continue;
                };
                if tile != Tile::Fixture {
                    berths += usize::from(tile != Tile::Threshold);
                    continue;
                }
                assert!(kind.fixture(x, y), "{kind:?} paints ({x}, {y}) by accident");
                match kind.surface_of(x, y) {
                    Some(Surf::Floor) => {
                        counter += 1;
                        assert!(
                            !kind.entry_path(x, y) && !kind.doorstep(x, y),
                            "{kind:?} sets its counter at ({x}, {y}), the way in"
                        );
                    }
                    Some(Surf::Port | Surf::Starboard) => corner += 1,
                    Some(Surf::Ceiling) => pendant += 1,
                    surf => panic!("{kind:?} reserves ({x}, {y}), which is {surf:?}"),
                }
            }
        }
        assert_eq!(
            counter,
            usize::from(kind.handshake().is_some()),
            "{kind:?} does not keep exactly the deck its counter is worked over"
        );
        let cornered = kind
            .handshake()
            .is_some_and(|(hx, _)| hx == COURSES || hx + 1 == COURSES + w);
        assert_eq!(
            corner,
            usize::from(cornered),
            "{kind:?} does not keep the wall its counter turns onto"
        );
        let middles = usize::from(2 - w % 2) * usize::from(2 - h % 2);
        assert_eq!(
            pendant,
            if kind.riding() { 0 } else { middles },
            "{kind:?} does not keep the ceiling its own pendant hangs from"
        );
        assert!(berths > 0, "{kind:?} reserved its whole net");
    }
}

/// The doorstep is deck, and it is exactly the deck a door stands on.
#[test]
fn every_declared_door_has_a_doorstep_on_its_own_deck() {
    for kind in ROOM_KINDS {
        let (cols, rows) = kind.grid();
        let mut steps = 0;
        for y in 0..rows {
            for x in 0..cols {
                if !kind.doorstep(x, y) {
                    continue;
                }
                steps += 1;
                assert_eq!(
                    kind.surface_of(x, y),
                    Some(Surf::Floor),
                    "{kind:?}'s doorstep at ({x}, {y}) is not deck"
                );
                assert_ne!(
                    kind.tile_of(x, y),
                    Some(Tile::Threshold),
                    "{kind:?}'s doorstep at ({x}, {y}) is the aperture, not the deck"
                );
            }
        }
        let (w, h) = kind.floor();
        let mut want: Vec<(u8, u8)> = Vec::new();
        for (_, port) in kind.declared() {
            let Port::Door { wall, offset } = port else {
                continue;
            };
            for along in 0..APERTURE {
                let cell = match wall % 4 {
                    0 => (offset + along, 0),
                    1 => (w - 1, offset + along),
                    2 => (offset + along, h - 1),
                    _ => (0, offset + along),
                };
                if !want.contains(&cell) {
                    want.push(cell);
                }
            }
        }
        assert_eq!(
            steps,
            want.len(),
            "{kind:?} has {steps} doorstep cells for {} the declaration names",
            want.len()
        );
    }
    assert!(!(0..RoomKind::Cabin.grid().0).any(|x| {
        (0..RoomKind::Cabin.grid().1).any(|y| {
            RoomKind::Cabin.doorstep(x, y) && RoomKind::Cabin.surface_of(x, y) != Some(Surf::Floor)
        })
    }),);
}

/// Detaching frees the slot and every port the room held, and a spawn
/// takes the lowest free slot again.
#[test]
fn a_detached_room_frees_its_slot_and_its_ports() {
    let mut rooms = Rooms::new();
    let trade = rooms.spawn(RoomKind::Trade, CABIN).expect("a trade room attaches");
    assert_eq!(trade, 2);
    assert_eq!(rooms.order(), &[CABIN, 1, 2]);
    assert_eq!(rooms.detach(CABIN), Err(Refusal::Root));
    assert_eq!(rooms.detach(7), Err(Refusal::Absent));
    assert_eq!(rooms.detach(trade), Ok(RoomKind::Trade));
    assert!(rooms.get(trade).is_none());
    assert_eq!(rooms.order(), &[CABIN, 1]);
    let cabin = rooms.get(CABIN).expect("the cabin stays");
    assert!(cabin.mates.iter().all(|mate| mate.map_or(true, |(id, _)| id != trade)));
    assert_eq!(rooms.spawn(RoomKind::Wreck, CABIN), Ok(2));
}

/// Reachability: everything hangs off the cabin, and a room walked
/// around takes the rooms behind it out of reach.
#[test]
fn reachability_walks_the_mates_from_the_cabin() {
    let rooms = Rooms::new();
    let seen = rooms.reachable(MAX_ROOMS as RoomId);
    assert!(seen[0] && seen[1]);
    assert!(seen[2..].iter().all(|&s| !s));
    let without_burner = rooms.reachable(1);
    assert!(without_burner[0] && !without_burner[1]);
    assert_eq!(rooms.reachable(CABIN), [false; MAX_ROOMS]);
    assert!(rooms.beyond(1, 1));
    assert!(rooms.beyond(CABIN, 1));
    assert!(!rooms.beyond(1, CABIN));
    assert!(!rooms.beyond(1, 5));
}

/// A replay forces the id it is given, and a taken or out-of-range id
/// is refused as `Full`; a re-seat finds its own berth.
#[test]
fn replay_forces_its_id_and_reseat_walks_for_a_berth() {
    let mut rooms = Rooms::new();
    assert_eq!(rooms.replay(1, CABIN, 0, RoomKind::Trade, 0), Err(Refusal::Full));
    assert_eq!(rooms.replay(10, CABIN, 0, RoomKind::Trade, 0), Err(Refusal::Full));
    assert_eq!(rooms.replay(5, CABIN, 0, RoomKind::Trade, 0), Ok(()));
    assert_eq!(rooms.kind(5), Some(RoomKind::Trade));
    assert_eq!(rooms.order(), &[CABIN, 1, 5]);
    assert_eq!(rooms.reseat(5, RoomKind::Pump, CABIN), Err(Refusal::Full));
    assert_eq!(rooms.reseat(7, RoomKind::Pump, 9), Ok(()));
    assert_eq!(rooms.kind(7), Some(RoomKind::Pump));
    assert_eq!(rooms.find(RoomKind::Pump), Some(7));
    assert_eq!(rooms.find(RoomKind::Parlor), None);
}
