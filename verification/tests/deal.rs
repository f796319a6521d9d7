use space_trucking::sim::cargo::{KIND_COUNT, Kind, Loc, Piece, Violation};
use space_trucking::sim::deal::{
    claim_salvage, compose_for, deck_berth, free_berth_in, gas_top_up, proposal, spawn_in,
    spin_wager, stock_of, strike_deal, toggle_mark,
};
use space_trucking::sim::encounter::{Encounter, EncounterKind, Encounters};
use space_trucking::sim::map::ShipState;
use space_trucking::sim::map::HERMITAGE;
use space_trucking::sim::room::{CABIN, RoomId, RoomKind, Rooms, Tile};
use space_trucking::sim::{Held, resolve_drop};

fn piece(id: u32, kind: Kind, loc: Loc) -> Piece {
    Piece {
        id,
        kind,
        variant: 0,
        gnawed: false,
        loc,
    }
}

/// Every cell of `kind`'s net that reads `tile`, in reading order.
fn cells_of(kind: RoomKind, tile: Tile) -> Vec<(u8, u8)> {
    let (w, h) = kind.grid();
    let mut out = Vec::new();
    for y in 0..h {
        for x in 0..w {
            if kind.tile_of(x, y) == Some(tile) {
                out.push((x, y));
            }
        }
    }
    out
}

fn hold(room: RoomId, (x, y): (u8, u8)) -> Loc {
    Loc::Hold { room, x, y }
}

/// The ship with a room of `kind` called alongside.
fn alongside(kind: RoomKind) -> (Rooms, RoomId) {
    let mut rooms = Rooms::new();
    let id = rooms.spawn(kind, CABIN).expect("the dock has room");
    (rooms, id)
}

#[test]
fn a_mark_toggles_on_in_order_and_off_again() {
    let mut marks = Vec::new();
    assert!(toggle_mark(&mut marks, 5));
    assert!(toggle_mark(&mut marks, 3));
    assert_eq!(marks, vec![3, 5]);
    assert!(!toggle_mark(&mut marks, 5));
    assert_eq!(marks, vec![3]);
    assert!(!toggle_mark(&mut marks, 3));
    assert!(marks.is_empty());
}

#[test]
fn the_proposal_is_ascending_and_the_stock_reads_row_by_row() {
    let (rooms, trade) = alongside(RoomKind::Trade);
    let offer = cells_of(RoomKind::Trade, Tile::Offer);
    let stock = cells_of(RoomKind::Trade, Tile::Stock);
    assert!(offer.len() >= 2 && stock.len() >= 3);
    let pieces = vec![
        piece(9, Kind::PerfumeVial, hold(trade, offer[0])),
        piece(4, Kind::Seedlings, hold(trade, offer[1])),
        piece(7, Kind::RationBricks, hold(trade, stock[2])),
        piece(8, Kind::RationBricks, hold(trade, stock[0])),
        piece(1, Kind::Seedlings, hold(CABIN, (5, 5))),
    ];
    assert_eq!(proposal(&rooms, &pieces, trade), vec![4, 9]);
    assert_eq!(stock_of(&rooms, &pieces, trade), vec![8, 7]);
    assert!(proposal(&rooms, &pieces, CABIN).is_empty());
}

#[test]
fn the_first_free_berth_reads_in_order_and_the_deck_comes_before_the_offer_area() {
    let (rooms, trade) = alongside(RoomKind::Trade);
    let plain = cells_of(RoomKind::Trade, Tile::Plain);
    let found = free_berth_in(&rooms, &[], trade, None, Kind::PerfumeVial, Tile::Plain);
    assert!(matches!(found, Some(Loc::Hold { room, x, y }) if room == trade && plain.contains(&(x, y))));
    let deck = deck_berth(&rooms, &[], trade, 3, Kind::PerfumeVial);
    assert_eq!(deck, found, "an empty deck takes the goods on its own tiles");
    // A room with no ordinary deck at all sets nothing down there.
    let (rooms, wreck) = alongside(RoomKind::Wreck);
    assert!(free_berth_in(&rooms, &[], wreck, None, Kind::PerfumeVial, Tile::Offer).is_none());
}

#[test]
fn the_handshake_commits_goods_for_a_proposal() {
    let (rooms, trade) = alongside(RoomKind::Trade);
    let offer = cells_of(RoomKind::Trade, Tile::Offer);
    let stock = cells_of(RoomKind::Trade, Tile::Stock);
    let mut values = [2_u8; KIND_COUNT];
    values[0] = 6; // the vial
    let given = piece(1, Kind::PerfumeVial, hold(trade, offer[0]));
    let goods = piece(2, Kind::Seedlings, hold(trade, stock[0]));
    let mut pieces = vec![given, goods];
    let mut marks = vec![2];
    let mut held = vec![None, Some(Held { piece: 1, origin: given.loc, legal: true })];
    let mut familiar = 0_u32;
    let mut karma = 0_u32;
    let composed = compose_for(&rooms, &pieces, &values, false, &marks, trade);
    assert_eq!(composed, vec![2], "the proposal's worth covers the goods");
    let worth = strike_deal(
        &rooms,
        &mut pieces,
        &mut marks,
        &mut held,
        &values,
        0,
        &mut familiar,
        &mut karma,
        trade,
    );
    assert_eq!(worth, Some((6, 3)), "six proposed, two plus the markup granted");
    assert!(marks.is_empty());
    assert_eq!(karma, 0);
    assert_eq!(familiar, (1 << 0) | (1 << 4), "both kinds that crossed are learned");
    let vial = pieces.iter().find(|p| p.id == 1).expect("the room keeps what it was given");
    assert!(matches!(vial.loc, Loc::Hold { room, x, y } if room == trade && stock.contains(&(x, y))));
    let seedlings = pieces.iter().find(|p| p.id == 2).expect("the goods are still on the board");
    assert!(matches!(seedlings.loc, Loc::Hold { room, x, y }
        if room == trade && rooms.tile(room, x, y) != Some(Tile::Stock)));
    assert_eq!(held[1].map(|h| h.piece), Some(1), "the vial is still on the board");
}

#[test]
fn the_hermitage_remembers_a_gift() {
    let (rooms, trade) = alongside(RoomKind::Trade);
    let offer = cells_of(RoomKind::Trade, Tile::Offer);
    let mut pieces = vec![piece(1, Kind::PerfumeVial, hold(trade, offer[0]))];
    let (mut marks, mut held) = (Vec::new(), Vec::new());
    let (mut familiar, mut karma) = (0_u32, 4_u32);
    let worth = strike_deal(
        &rooms,
        &mut pieces,
        &mut marks,
        &mut held,
        &[3; KIND_COUNT],
        HERMITAGE,
        &mut familiar,
        &mut karma,
        trade,
    );
    assert_eq!(worth, Some((3, 0)));
    assert_eq!(karma, 5, "a gift counts toward the hermits' memory");
    assert_eq!(familiar, 1);
}

#[test]
fn nothing_proposed_is_no_deal() {
    let (rooms, trade) = alongside(RoomKind::Trade);
    let stock = cells_of(RoomKind::Trade, Tile::Stock);
    let mut pieces = vec![piece(2, Kind::Seedlings, hold(trade, stock[0]))];
    let before = pieces.clone();
    let mut marks = vec![2];
    let (mut familiar, mut karma) = (0_u32, 0_u32);
    let worth = strike_deal(
        &rooms,
        &mut pieces,
        &mut marks,
        &mut Vec::new(),
        &[3; KIND_COUNT],
        0,
        &mut familiar,
        &mut karma,
        trade,
    );
    assert_eq!(worth, None);
    assert_eq!(pieces, before);
    assert_eq!(marks, vec![2]);
}

#[test]
fn salvage_lifts_what_was_marked_and_nothing_else() {
    let (rooms, wreck) = alongside(RoomKind::Wreck);
    let stock = cells_of(RoomKind::Wreck, Tile::Stock);
    let mut pieces = vec![
        piece(1, Kind::ScrapAlloy, hold(wreck, stock[0])),
        piece(2, Kind::GildedIdol, hold(wreck, stock[1])),
    ];
    let mut marks = Vec::new();
    assert!(!claim_salvage(&rooms, &mut pieces, &mut marks, wreck), "nothing marked, nothing taken");
    let mut marks = vec![2, 40];
    assert!(claim_salvage(&rooms, &mut pieces, &mut marks, wreck));
    assert_eq!(marks, vec![40]);
    assert_eq!(pieces[0].loc, hold(wreck, stock[0]), "the unmarked piece stays the wreck's");
    assert!(matches!(pieces[1].loc, Loc::Hold { room, x, y }
        if room == wreck && rooms.tile(room, x, y) != Some(Tile::Stock)));
}

#[test]
fn a_drop_lands_on_a_free_cell_and_refuses_by_tile() {
    let (rooms, trade) = alongside(RoomKind::Trade);
    let burner = rooms.find(RoomKind::Burner).expect("the burner rides along");
    let vial = piece(1, Kind::PerfumeVial, hold(CABIN, (5, 5)));
    let pieces = [vial];
    assert_eq!(resolve_drop(&rooms, &pieces, &vial, None, &[]), Err(None));
    let plain = cells_of(RoomKind::Cabin, Tile::Plain);
    let target = plain
        .iter()
        .copied()
        .find(|&c| resolve_drop(&rooms, &pieces, &vial, Some((CABIN, c.0, c.1)), &[]).is_ok())
        .expect("an empty cabin has room for a vial");
    assert_eq!(
        resolve_drop(&rooms, &pieces, &vial, Some((CABIN, target.0, target.1)), &[]),
        Ok(hold(CABIN, target))
    );
    let threshold = cells_of(RoomKind::Cabin, Tile::Threshold)[0];
    assert_eq!(
        resolve_drop(&rooms, &pieces, &vial, Some((CABIN, threshold.0, threshold.1)), &[]),
        Err(Some(Violation::Threshold))
    );
    let stock = cells_of(RoomKind::Trade, Tile::Stock)[0];
    assert_eq!(
        resolve_drop(&rooms, &pieces, &vial, Some((trade, stock.0, stock.1)), &[]),
        Err(None),
        "nothing of the player's is laid on a room's own shelf"
    );
    let goods = piece(2, Kind::Seedlings, hold(trade, stock));
    assert_eq!(
        resolve_drop(&rooms, &[vial, goods], &goods, Some((CABIN, target.0, target.1)), &[]),
        Err(None),
        "a room's own goods never leave through a drop"
    );
    let fire = cells_of(RoomKind::Burner, Tile::Consume)[0];
    let crate_ = piece(3, Kind::SuspiciousCrate, hold(CABIN, (3, 3)));
    assert_eq!(
        resolve_drop(&rooms, &[crate_], &crate_, Some((burner, fire.0, fire.1)), &[]),
        Err(Some(Violation::Suspicious))
    );
    let cabinet = piece(4, Kind::Cabinet, hold(CABIN, (2, 2)));
    assert_eq!(
        resolve_drop(&rooms, &[vial, cabinet], &vial, Some((CABIN, target.0, target.1)), &[4]),
        Ok(Loc::Stow { cabinet: 4, slot: 0 }),
        "a one-cell drop over a cabinet reaches for its cubbies"
    );
}

#[test]
fn a_spawned_piece_takes_the_next_id_and_a_variant() {
    let (rooms, wreck) = alongside(RoomKind::Wreck);
    let mut pieces = Vec::new();
    let mut next = 7_u32;
    let mut rng = fastrand::Rng::with_seed(3);
    assert!(spawn_in(&rooms, &mut pieces, &mut next, &mut rng, wreck, Kind::GildedIdol, Tile::Plain));
    assert_eq!(next, 8);
    assert_eq!(pieces.len(), 1);
    assert_eq!(pieces[0].id, 7);
    assert!(pieces[0].variant < 4);
    assert!(matches!(pieces[0].loc, Loc::Hold { room, .. } if room == wreck));
    // A room with no offer area has nowhere to put one there.
    assert!(!spawn_in(&rooms, &mut pieces, &mut next, &mut rng, wreck, Kind::GildedIdol, Tile::Offer));
    assert_eq!(next, 8);
}

#[test]
fn the_casino_transmutes_losses_and_pays_winners_on_its_own_floor() {
    let (rooms, parlor) = alongside(RoomKind::Parlor);
    let offer = cells_of(RoomKind::Parlor, Tile::Offer);
    let stake = piece(1, Kind::PerfumeVial, hold(parlor, offer[0]));
    let mut rng = fastrand::Rng::with_seed(11);
    let mut seen = [false; 2];
    for tick in 0..40_u64 {
        let mut pieces = vec![stake];
        let mut next = 10_u32;
        let won = spin_wager(&rooms, &mut pieces, &mut next, &mut rng, 0xCA5, tick, parlor)
            .expect("something was staked");
        if won {
            seen[0] = true;
            assert_eq!(pieces[0], stake, "the stake stands");
            assert_eq!(pieces.len(), 2);
            assert_eq!(pieces[1].kind, Kind::GildedIdol);
            assert_eq!(next, 11);
        } else {
            seen[1] = true;
            assert_eq!(pieces.len(), 1, "no piece is ever destroyed");
            assert_eq!(pieces[0].kind, Kind::CasinoChip);
            assert_eq!((pieces[0].id, pieces[0].loc), (stake.id, stake.loc));
            assert_eq!(next, 10);
        }
    }
    assert_eq!(seen, [true, true], "the coin comes down both ways");
    let mut empty = Vec::new();
    let mut next = 0;
    assert_eq!(spin_wager(&rooms, &mut empty, &mut next, &mut rng, 1, 1, parlor), None);
}

#[test]
fn the_gas_station_tops_up_exactly_once() {
    let mut encounters = Encounters {
        current: Some(Encounter {
            kind: EncounterKind::GasStation,
            start: 0,
            end: 10_000,
            opened: true,
            closed: false,
            used: false,
        }),
    };
    let mut state = ShipState::Traveling {
        from: 6,
        to: 7,
        progress: 1_000,
        leg_ticks: 21_000,
    };
    assert!(gas_top_up(&mut encounters, &mut state));
    assert_eq!(
        state,
        ShipState::Traveling {
            from: 6,
            to: 7,
            progress: 2_000,
            leg_ticks: 21_000,
        }
    );
    assert!(!gas_top_up(&mut encounters, &mut state), "once");
    let mut whale = Encounters {
        current: Some(Encounter {
            kind: EncounterKind::Whale,
            start: 0,
            end: 1,
            opened: true,
            closed: false,
            used: false,
        }),
    };
    assert!(!gas_top_up(&mut whale, &mut state), "no pump alongside");
}
