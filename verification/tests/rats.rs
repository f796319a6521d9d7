use space_trucking::sim::cargo::{Kind, Loc, Piece, lit_adjacent};
use space_trucking::sim::rats::{
    BOARD_CHANCE, CHASE_LIMIT, GRID_COLS, GRID_ROWS, MOVE_BASE, MOVE_JITTER, NAP_LAZE, RATS_ROOM,
    Rat, RatSignal, Rats, SALT_BOARD, choose_cell, couch_cells, couch_gap, nearest_hold_piece,
    occupied_cells,
};
use space_trucking::sim::room::{CABIN, Surf};
use space_trucking::sim::splitmix;

/// A stowed piece for the pure helpers below.
const fn hold_piece(id: u32, kind: Kind, x: u8, y: u8) -> Piece {
    Piece {
        id,
        kind,
        variant: 0,
        gnawed: false,
        loc: Loc::Hold { room: CABIN, x, y },
    }
}

#[test]
fn occupied_cells_sums_floor_footprints_and_ignores_the_rest() {
    let pieces = [
        hold_piece(0, Kind::RationBricks, 4, 4), // 2x2 = 4 floor cells
        hold_piece(1, Kind::PerfumeVial, 3, 3),  // 1 floor cell
        // Wall and ceiling berths are not food density.
        hold_piece(2, Kind::ChartTank, 4, 0),
        hold_piece(3, Kind::CeilingLamp, 14, 5),
        Piece {
            id: 4,
            kind: Kind::RationBricks,
            variant: 0,
            gnawed: false,
            loc: Loc::Stow {
                cabinet: 0,
                slot: 0,
            },
        },
    ];
    assert_eq!(occupied_cells(&pieces), 5);
    assert_eq!(occupied_cells(&[]), 0);
}

#[test]
fn cell_choice_prefers_empty_cells_and_avoids_the_current_one() {
    // Every net cell covered except (5, 5): a vial on each of them.
    let mut pieces = Vec::new();
    for y in 0..GRID_ROWS {
        for x in 0..GRID_COLS {
            if RATS_ROOM.surface_of(x, y).is_none() || (x, y) == (5, 5) {
                continue;
            }
            pieces.push(hold_piece(pieces.len() as u32, Kind::PerfumeVial, x, y));
        }
    }
    // One free cell: every hash lands on it.
    for h in 0..50 {
        assert_eq!(choose_cell(h, &pieces, None), Some((5, 5)));
    }
    // With that cell the one to avoid, the rat perches on cargo instead
    // of staying put, and the draw stays deterministic.
    let perch = choose_cell(7, &pieces, Some((5, 5)));
    assert_ne!(perch, Some((5, 5)));
    assert!(perch.is_some(), "an unlit hold always has somewhere to go");
    assert_eq!(perch, choose_cell(7, &pieces, Some((5, 5))));
}

#[test]
fn the_nearest_piece_rule_measures_to_the_footprint_and_breaks_ties_low() {
    let pieces = [
        hold_piece(4, Kind::RationBricks, 0, 0), // footprint out to (1, 1)
        hold_piece(2, Kind::PerfumeVial, 5, 0),
    ];
    // (2, 0): the bricks' edge is 1 away, the vial 3: bricks.
    assert_eq!(nearest_hold_piece(&pieces, (2, 0)), Some(0));
    // (3, 0): both 2 away — the lower id wins, which is the vial.
    assert_eq!(nearest_hold_piece(&pieces, (3, 0)), Some(1));
    // Perched on a footprint is distance zero.
    assert_eq!(nearest_hold_piece(&pieces, (1, 1)), Some(0));
    // Nothing stowed, nothing to gnaw.
    assert_eq!(nearest_hold_piece(&[], (0, 0)), None);
}

/// The couch's cells and the drift distance to them.
#[test]
fn the_couch_is_two_cells_and_the_gap_is_manhattan() {
    let pieces = vec![
        hold_piece(0, Kind::Couch, 4, 3),
        hold_piece(1, Kind::Seedlings, 3, 7),
    ];
    let couch = couch_cells(&pieces);
    assert_eq!(couch, [(4, 3), (5, 3)]);
    assert_eq!(couch_gap(&couch, (0, 3)), 4);
    assert_eq!(couch_gap(&couch, (7, 5)), 4);
    assert_eq!(couch_gap(&couch, (5, 3)), 0);
    assert_eq!(couch_gap(&[], (5, 3)), u32::MAX);
}

/// A rat mid-tenure with both schedules due almost immediately.
const fn wound_rat(cell: (u8, u8)) -> Rats {
    Rats {
        rat: Some(Rat {
            cell,
            prev_cell: cell,
            moved_at: 0,
            next_move: 1,
            next_nibble: 2,
            chases: 0,
        }),
    }
}

#[test]
fn the_rat_never_hops_or_nibbles_in_lamplight() {
    // Two lamps light a swath of the hold; cargo on the dark side
    // keeps the nibbles coming. Over a long deterministic run the rat
    // must never occupy a lit cell nor gnaw from one.
    let mut pieces = vec![
        hold_piece(0, Kind::CeilingLamp, 1, 0),
        hold_piece(1, Kind::FloorLamp, 0, 2),
        hold_piece(2, Kind::RationBricks, 4, 0),
        hold_piece(3, Kind::Seedlings, 3, 3),
    ];
    let mut rats = wound_rat((3, 1));
    let mut cues = Vec::new();
    let mut skitters = 0_u32;
    for tick in 1..300_000_u64 {
        cues.clear();
        rats.on_tick(0xBEEF, tick, &mut pieces, &mut cues);
        let rat = rats.rat.expect("nothing evicts it here");
        assert!(
            !lit_adjacent(RATS_ROOM, &pieces, CABIN, rat.cell.0, rat.cell.1),
            "tick {tick}: the rat sat in lamplight at {:?}",
            rat.cell
        );
        skitters += cues
            .iter()
            .filter(|cue| matches!(cue, RatSignal::Skitter { .. }))
            .count() as u32;
    }
    assert!(skitters > 100, "the rat barely moved: {skitters} skitters");
    assert!(
        pieces.iter().any(|piece| piece.gnawed),
        "dark cargo still gets gnawed"
    );
}

#[test]
fn a_hold_lit_wall_to_wall_pins_the_rat_and_boards_no_new_one() {
    // Lamps down every even column of the net: every odd-column cell
    // reads lit_adjacent from a horizontal neighbour, every lamp from
    // its column-mates.
    let mut pieces: Vec<Piece> = Vec::new();
    for y in 0..GRID_ROWS {
        for x in 0..GRID_COLS {
            if RATS_ROOM.surface_of(x, y).is_some() && x % 2 == 0 {
                pieces.push(hold_piece(pieces.len() as u32, Kind::CeilingLamp, x, y));
            }
        }
    }
    for y in 0..GRID_ROWS {
        for x in 0..GRID_COLS {
            if RATS_ROOM.surface_of(x, y).is_some() {
                assert!(lit_adjacent(RATS_ROOM, &pieces, CABIN, x, y), "({x}, {y}) reads dark");
            }
        }
    }
    // A rat already aboard (lamps stowed around it) skips every beat:
    // no hop, no nibble, schedules still re-armed.
    let mut rats = wound_rat((5, 4));
    let mut cues = Vec::new();
    for tick in 1..30_000_u64 {
        rats.on_tick(7, tick, &mut pieces, &mut cues);
    }
    let rat = rats.rat.expect("light deters, it never evicts");
    assert_eq!(rat.cell, (5, 4), "nowhere unlit to go");
    assert!(rat.next_move > 29_999, "skipped beats must re-arm");
    assert!(cues.is_empty(), "a skipped beat makes no sound: {cues:?}");
    assert!(pieces.iter().all(|piece| !piece.gnawed));
    // And no stowaway boards a lit hold, even on a winning roll.
    let mut fresh = Rats::new();
    let legs = (0..500_u64)
        .find(|&legs| splitmix(9 ^ SALT_BOARD, legs) % BOARD_CHANCE == 0)
        .expect("a boarding roll within 500 legs");
    fresh.on_depart(9, legs, 100, &pieces, false, &mut cues);
    assert!(fresh.rat.is_none(), "it boarded a lit hold");
    assert!(cues.is_empty());
}

#[test]
fn the_couch_tempts_the_rat_into_a_nap() {
    let mut pieces = vec![
        hold_piece(0, Kind::Couch, 4, 3),
        hold_piece(1, Kind::Seedlings, 3, 7),
        hold_piece(2, Kind::RationBricks, 6, 6),
    ];
    let couch = couch_cells(&pieces);
    assert_eq!(couch, [(4, 3), (5, 3)]);
    let mut rats = wound_rat((0, 3));
    let mut cues = Vec::new();
    let mut napped_beats = 0_u32;
    let mut woke = false;
    for tick in 1..600_000_u64 {
        cues.clear();
        let before = rats.rat.expect("aboard").cell;
        let was_napping = couch.contains(&before);
        rats.on_tick(0xC0C4, tick, &mut pieces, &mut cues);
        let rat = rats.rat.expect("aboard");
        let hopped = cues.iter().any(|cue| matches!(cue, RatSignal::Skitter { .. }));
        if hopped && !was_napping {
            // Off the couch every hop is one step straight toward it.
            assert_eq!(
                couch_gap(&couch, rat.cell),
                couch_gap(&couch, before) - 1,
                "tick {tick}: a drift hop failed to close on the couch"
            );
        }
        if hopped && was_napping {
            woke = true;
        }
        if couch.contains(&rat.cell) {
            napped_beats += 1;
            assert!(
                !cues.contains(&RatSignal::Nibble),
                "tick {tick}: it nibbled mid-nap"
            );
            // The nap cadence: re-armed NAP_LAZE times slower.
            if hopped || rat.next_move > tick {
                assert!(
                    rat.next_move - tick.min(rat.next_move)
                        <= NAP_LAZE * (MOVE_BASE + MOVE_JITTER),
                    "nap re-arm overshot"
                );
            }
        }
    }
    assert!(napped_beats > 10_000, "it never settled in: {napped_beats}");
    assert!(woke, "a nap still ends: the lazy hop must eventually fire");
    assert!(
        pieces.iter().any(|piece| piece.gnawed),
        "en route it still bites"
    );
    // The nap cadence itself: a rat on the couch re-arms its hop at
    // least NAP_LAZE * MOVE_BASE out.
    let mut napping = wound_rat((4, 3));
    cues.clear();
    napping.on_tick(0xC0C4, 1, &mut pieces, &mut cues);
    let rat = napping.rat.expect("aboard");
    if couch.contains(&rat.cell) {
        assert!(rat.next_move > NAP_LAZE * MOVE_BASE, "no laze applied");
    }
}

#[test]
fn a_sparse_hold_sends_the_rat_ashore_and_a_full_one_keeps_it() {
    let mut rats = wound_rat((5, 5));
    let mut cues = Vec::new();
    // Nothing aboard to eat: the docking sends it off.
    rats.on_dock(&[], &mut cues);
    assert!(rats.rat.is_none());
    assert_eq!(cues, vec![RatSignal::Left]);
    // Docking with no rat aboard is silent.
    cues.clear();
    rats.on_dock(&[], &mut cues);
    assert!(cues.is_empty());
    // A crowded floor keeps it aboard.
    let mut pieces = Vec::new();
    for y in 0..GRID_ROWS {
        for x in 0..GRID_COLS {
            if RATS_ROOM.surface_of(x, y) == Some(Surf::Floor) && pieces.len() < 24 {
                pieces.push(hold_piece(pieces.len() as u32, Kind::PerfumeVial, x, y));
            }
        }
    }
    assert_eq!(occupied_cells(&pieces), 24);
    let mut kept = wound_rat((0, 0));
    kept.on_dock(&pieces, &mut cues);
    assert!(kept.rat.is_some());
    assert!(cues.is_empty());
}

#[test]
fn a_missed_press_is_not_consumed_and_the_third_chase_evicts() {
    let pieces = [hold_piece(0, Kind::Seedlings, 3, 3)];
    let mut rats = wound_rat((6, 6));
    let mut cues = Vec::new();
    assert!(!rats.on_press(1, 10, false, &pieces, &mut cues));
    assert!(cues.is_empty());
    assert_eq!(rats.rat.unwrap().chases, 0);
    assert!(rats.on_press(1, 10, true, &pieces, &mut cues));
    let rat = rats.rat.unwrap();
    assert_eq!(rat.chases, 1);
    assert_ne!(rat.cell, (6, 6), "a chase hops it away");
    assert_eq!(rat.prev_cell, (6, 6));
    assert_eq!(cues, vec![RatSignal::Chased]);
    for n in 2..CHASE_LIMIT {
        assert!(rats.on_press(1, 10 + u64::from(n), true, &pieces, &mut cues));
    }
    cues.clear();
    assert!(rats.on_press(1, 99, true, &pieces, &mut cues));
    assert!(rats.rat.is_none());
    assert_eq!(cues, vec![RatSignal::Chased, RatSignal::Left]);
    // No rat, nothing to chase.
    assert!(!rats.on_press(1, 100, true, &pieces, &mut cues));
}
