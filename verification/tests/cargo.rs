use space_trucking::sim::cargo::{
    CABINET_SLOTS, Kind, Loc, Mount, Piece, Violation, cabinet_occupied, dress_fit, dressing_check,
    first_fit, free_cubby, lamp, lamp_lit, laid_pinned, lit_adjacent, placement_check, plan,
    player_owned, stowable,
};
use space_trucking::sim::room::{CABIN, ROOM_KINDS, RoomKind, Rooms, Surf};

/// The ship as it leaves the yard, for the placement tests.
fn ship() -> Rooms {
    Rooms::new()
}

/// A board of pieces berthed in the cabin at the given cells, ids
/// counting up from 0.
fn board(stowed: &[(Kind, u8, u8)]) -> Vec<Piece> {
    stowed
        .iter()
        .enumerate()
        .map(|(i, &(kind, x, y))| Piece {
            id: i as u32,
            kind,
            variant: 0,
            gnawed: false,
            loc: Loc::Hold { room: CABIN, x, y },
        })
        .collect()
}

/// The next free id after [`board`], for the candidate piece.
fn check(stowed: &[(Kind, u8, u8)], kind: Kind, x: u8, y: u8) -> Result<(), Violation> {
    let rooms = ship();
    let pieces = board(stowed);
    placement_check(&rooms, &pieces, pieces.len() as u32, kind, CABIN, x, y)
}

#[test]
fn bounds_rule_accepts_inside_and_names_offgrid() {
    // RationBricks is 2x2: fits on the floor at (4, 3); bent over the
    // starboard fold at (10, 4); off the net entirely at (21, 3).
    assert_eq!(check(&[], Kind::RationBricks, 4, 3), Ok(()));
    assert_eq!(
        check(&[], Kind::RationBricks, 10, 4),
        Err(Violation::Bounds)
    );
    assert_eq!(
        check(&[], Kind::RationBricks, 21, 3),
        Err(Violation::Bounds)
    );
}

#[test]
fn overlap_rule_accepts_beside_and_names_collision() {
    let stowed = [(Kind::PerfumeVial, 5, 5)];
    assert_eq!(check(&stowed, Kind::Seedlings, 6, 5), Ok(()));
    assert_eq!(
        check(&stowed, Kind::Seedlings, 5, 5),
        Err(Violation::Overlap)
    );
    // Multi-cell: ScrapAlloy anchored at (4, 5) covers (5, 5) too.
    assert_eq!(
        check(&stowed, Kind::ScrapAlloy, 4, 5),
        Err(Violation::Overlap)
    );
}

/// Nothing berths on a threshold: an aperture's cells belong to two
/// rooms at once, and a detach would have to pick which grid kept
/// the cargo. The doorway stays clear for a reason that survives.
#[test]
fn the_threshold_rule_keeps_every_aperture_clear() {
    // The cabin's starboard doorway, its aft doorway, its hatch.
    assert_eq!(
        check(&[], Kind::PerfumeVial, 11, 3),
        Err(Violation::Threshold)
    );
    assert_eq!(check(&[], Kind::WallLamp, 3, 1), Err(Violation::Threshold));
    assert_eq!(
        check(&[], Kind::PerfumeVial, 9, 7),
        Err(Violation::Threshold)
    );
    // And a dressing cannot be laid across one either.
    let rooms = ship();
    assert_eq!(
        dressing_check(&rooms, &[], 9, Kind::PaintTin, CABIN, 9, 7),
        Err(Violation::Threshold)
    );
}

#[test]
fn heavy_lies_dormant_and_the_walls_refuse_plain_cargo() {
    assert_eq!(check(&[], Kind::GildedIdol, 3, 3), Ok(()));
    assert_eq!(check(&[], Kind::GildedIdol, 5, 5), Ok(()));
    // Lifted onto a wall, the mount law refuses (port chart, clear
    // of the doorway the aperture punches through it).
    assert_eq!(
        check(&[], Kind::GildedIdol, 0, 8),
        Err(Violation::Affix(Mount::Floor))
    );
}

#[test]
fn volatile_rule_accepts_gapped_and_names_adjacency() {
    let stowed = [(Kind::GasCanister, 3, 7)];
    assert_eq!(check(&stowed, Kind::GasCanister, 3, 5), Ok(()));
    assert_eq!(
        check(&stowed, Kind::GasCanister, 3, 6),
        Err(Violation::Volatile)
    );
    assert_eq!(
        check(&stowed, Kind::GasCanister, 4, 6),
        Err(Violation::Volatile)
    );
    assert_eq!(check(&stowed, Kind::GasCanister, 5, 6), Ok(()));
}

#[test]
fn cryo_rule_accepts_edge_and_names_interior() {
    assert_eq!(check(&[], Kind::CryoCore, 3, 4), Ok(()));
    assert_eq!(check(&[], Kind::CryoCore, 4, 9), Ok(()));
    assert_eq!(check(&[], Kind::CryoCore, 5, 5), Err(Violation::Cryo));
}

#[test]
fn suspicious_rule_accepts_one_and_names_a_second() {
    assert_eq!(check(&[], Kind::SuspiciousCrate, 3, 3), Ok(()));
    let stowed = [(Kind::SuspiciousCrate, 3, 3)];
    assert_eq!(
        check(&stowed, Kind::SuspiciousCrate, 5, 5),
        Err(Violation::Suspicious)
    );
}

#[test]
fn the_floor_takes_cargo_anywhere_a_body_could_stand() {
    // The walker passes through cargo, so the floor keeps no
    // reserved lanes: a wall of cargo may close across the room.
    assert_eq!(check(&[], Kind::PerfumeVial, 10, 3), Ok(()));
    assert_eq!(check(&[], Kind::PerfumeVial, 6, 7), Ok(()));
    let wall: Vec<(Kind, u8, u8)> = (3..9).map(|y| (Kind::PerfumeVial, 4, y)).collect();
    assert_eq!(check(&wall, Kind::PerfumeVial, 4, 9), Ok(()));
    assert_eq!(check(&wall, Kind::PerfumeVial, 6, 5), Ok(()));
}

#[test]
fn tall_floor_cargo_shadows_the_wall_behind_it() {
    // The cabinet (stature 2) against the aft baseboard blocks the
    // two wall rows behind its cell; a painting may not hang there.
    let stowed = [(Kind::Cabinet, 6, 3)];
    assert_eq!(
        check(&stowed, Kind::Painting, 5, 1),
        Err(Violation::Overlap)
    );
    // Two columns over, the wall is clear.
    assert_eq!(check(&stowed, Kind::Painting, 7, 1), Ok(()));
    // And symmetrically.
    let hung = [(Kind::Painting, 7, 1)];
    assert_eq!(check(&hung, Kind::Cabinet, 7, 3), Err(Violation::Overlap));
    assert_eq!(check(&hung, Kind::Cabinet, 5, 3), Ok(()));
}

#[test]
fn affix_rule_accepts_the_mount_surface_and_names_the_miss() {
    assert_eq!(check(&[], Kind::CeilingLamp, 16, 4), Ok(()));
    assert_eq!(
        check(&[], Kind::CeilingLamp, 5, 1),
        Err(Violation::Affix(Mount::Ceiling))
    );
    assert_eq!(check(&[], Kind::WallLamp, 5, 1), Ok(()));
    assert_eq!(check(&[], Kind::WallLamp, 1, 6), Ok(()));
    assert_eq!(
        check(&[], Kind::WallLamp, 5, 5),
        Err(Violation::Affix(Mount::Wall))
    );
    assert_eq!(check(&[], Kind::Couch, 4, 4), Ok(()));
    assert_eq!(
        check(&[], Kind::Couch, 4, 0),
        Err(Violation::Affix(Mount::Floor))
    );
}

#[test]
fn the_floor_lamp_stands_on_the_floor_and_never_across_a_fold() {
    assert_eq!(check(&[], Kind::FloorLamp, 4, 4), Ok(()));
    assert_eq!(check(&[], Kind::FloorLamp, 4, 8), Ok(()));
    assert_eq!(
        check(&[], Kind::FloorLamp, 5, 0),
        Err(Violation::Affix(Mount::Floor))
    );
    assert_eq!(check(&[], Kind::FloorLamp, 5, 2), Err(Violation::Bounds));
}

#[test]
fn the_painting_hangs_on_any_wall_but_never_a_hole() {
    assert_eq!(check(&[], Kind::Painting, 5, 1), Ok(()));
    // A flank too, now that the footprint is stated in the wall's
    // own frame: two cells along the port wall, one course tall.
    assert_eq!(check(&[], Kind::Painting, 0, 6), Ok(()));
    assert_eq!(
        check(&[], Kind::Painting, 4, 4),
        Err(Violation::Affix(Mount::Wall))
    );
    assert_eq!(check(&[], Kind::Painting, 13, 9), Err(Violation::Bounds));
}

/// Whether `(x, y)` is a wall cell one step off the deck — the
/// baseboard course, where the fold is close enough to point at.
fn baseboard(host: RoomKind, x: u8, y: u8) -> bool {
    [(0_i8, 1_i8), (0, -1), (1, 0), (-1, 0)]
        .into_iter()
        .any(|step| on_the_deck(host, x, y, step))
}

/// Whether one step from `(x, y)` lands on `host`'s deck.
fn on_the_deck(host: RoomKind, x: u8, y: u8, (dx, dy): (i8, i8)) -> bool {
    let (fx, fy, fw, fh) = host.floor_rect();
    let step = |c: u8, d: i8| u8::try_from(i16::from(c) + i16::from(d)).ok();
    let (Some(cx), Some(cy)) = (step(x, dx), step(y, dy)) else {
        return false;
    };
    (fx..fx + fw).contains(&cx) && (fy..fy + fh).contains(&cy)
}

/// **Which way a wall chart's courses climb the sheet**, read off
/// the net rather than assumed: the sheet direction a wall chart
/// approaches the floor chart in is DOWN that wall. The aft and
/// front walls fold off the deck's near and far rows, so their
/// courses climb the sheet's y; the two flanks fold out sideways, so
/// theirs climb its x. Derived here so the guard below asks the net
/// the same question a player asks the room, instead of reading the
/// arbiter's own table back at it.
fn courses_climb_the_sheets_x(host: RoomKind, x: u8, y: u8) -> bool {
    // Step one cell each way and see which step lands on the deck:
    // that is the way down this wall, whatever the wall is.
    let vertical = on_the_deck(host, x, y, (0, 1)) || on_the_deck(host, x, y, (0, -1));
    let sideways = on_the_deck(host, x, y, (1, 0)) || on_the_deck(host, x, y, (-1, 0));
    assert!(
        vertical != sideways,
        "({x}, {y}) is not one cell off the deck of a {host:?}",
    );
    sideways
}

/// **A footprint keeps its shape on every wall it may take.**
///
/// The net is one sheet folded into a box and the side flaps fold
/// out sideways, so the cells a footprint takes turn with the wall.
/// On EVERY wall of EVERY room, a kind covers its own `across` along
/// the wall and its own `tall` up it. Which sheet axis is which comes
/// off the net's own fold and not off the arbiter's table.
#[test]
fn a_footprint_keeps_its_shape_on_every_wall_it_may_take() {
    let mut seen: Vec<(RoomKind, Surf)> = Vec::new();
    for host in ROOM_KINDS {
        let (cols, rows) = host.grid();
        for kind in Kind::ALL {
            let (across, _, tall) = kind.extent();
            for y in 0..rows {
                for x in 0..cols {
                    let Some(surf) = host.surface_of(x, y) else {
                        continue;
                    };
                    if matches!(surf, Surf::Floor | Surf::Ceiling) {
                        continue;
                    }
                    // The baseboard course, where the fold itself is
                    // one step away and the sheet can be asked which
                    // way that is.
                    if !baseboard(host, x, y) {
                        continue;
                    }
                    let (w, h) = plan(host, kind, x, y).expect("a wall cell has a plan");
                    let sideways = courses_climb_the_sheets_x(host, x, y);
                    let (along, up) = if sideways { (h, w) } else { (w, h) };
                    assert_eq!(
                        (along, up),
                        (across, tall),
                        "{kind:?} on the {surf:?} wall of a {host:?} at ({x}, {y}) \
                         covers {along} along and {up} up",
                    );
                    if !seen.contains(&(host, surf)) {
                        seen.push((host, surf));
                    }
                }
            }
        }
    }
    // Every wall of every room was actually asked, and both fold
    // directions are in the sample — a sweep that only met the aft
    // wall would pass this whatever the flanks did.
    assert_eq!(seen.len(), ROOM_KINDS.len() * 4);
    // And a non-square kind hangs on a flank.
    for kind in [Kind::Window, Kind::Painting] {
        assert_eq!(check(&[], kind, 5, 1), Ok(()), "{kind:?} on the aft wall");
        assert_eq!(check(&[], kind, 0, 5), Ok(()), "{kind:?} on the port wall");
    }
    // A square footprint still cannot tell the flanks from the ends.
    assert_eq!(check(&[], Kind::Porthole, 1, 8), Ok(()));
    assert_eq!(check(&[], Kind::ChartTank, 11, 5), Ok(()));
}

#[test]
fn affix_is_checked_before_the_per_piece_scan() {
    let stowed = [(Kind::RationBricks, 4, 4)];
    assert_eq!(
        check(&stowed, Kind::WallLamp, 4, 4),
        Err(Violation::Affix(Mount::Wall))
    );
    let stowed = [(Kind::Painting, 5, 1)];
    assert_eq!(
        check(&stowed, Kind::WallLamp, 5, 1),
        Err(Violation::Overlap)
    );
}

#[test]
fn lamps_are_lit_only_in_a_room_and_light_their_neighbours() {
    assert!(lamp(Kind::CeilingLamp) && lamp(Kind::WallLamp) && lamp(Kind::FloorLamp));
    assert!(!lamp(Kind::Couch) && !lamp(Kind::Painting) && !lamp(Kind::PerfumeVial));

    let pieces = board(&[(Kind::CeilingLamp, 16, 4)]);
    assert!(lamp_lit(&pieces[0]));
    assert!(lit_adjacent(RoomKind::Cabin, &pieces, CABIN, 15, 4));
    assert!(lit_adjacent(RoomKind::Cabin, &pieces, CABIN, 17, 4));
    assert!(lit_adjacent(RoomKind::Cabin, &pieces, CABIN, 16, 5));
    assert!(!lit_adjacent(RoomKind::Cabin, &pieces, CABIN, 16, 4));
    assert!(!lit_adjacent(RoomKind::Cabin, &pieces, CABIN, 15, 3));
    assert!(!lit_adjacent(RoomKind::Cabin, &pieces, CABIN, 18, 4));
    // Light does not cross a seam.
    assert!(!lit_adjacent(RoomKind::Cabin, &pieces, 1, 15, 4));

    // A standing lamp lights from the ONE cell of deck it occupies,
    // however tall it is: a height is spent up the wall behind it
    // (`Kind::stature`) and never across the floor beside it.
    let tall = board(&[(Kind::FloorLamp, 3, 4)]);
    assert!(lit_adjacent(RoomKind::Cabin, &tall, CABIN, 4, 4));
    assert!(lit_adjacent(RoomKind::Cabin, &tall, CABIN, 3, 3));
    assert!(lit_adjacent(RoomKind::Cabin, &tall, CABIN, 3, 5));
    assert!(!lit_adjacent(RoomKind::Cabin, &tall, CABIN, 4, 5), "corner");
    assert!(!lit_adjacent(RoomKind::Cabin, &tall, CABIN, 4, 3), "corner");

    // Boxed in a cubby a lamp is dark, and non-lamps light nothing.
    let boxed = Piece {
        id: 9,
        kind: Kind::FloorLamp,
        variant: 0,
        gnawed: false,
        loc: Loc::Stow {
            cabinet: 0,
            slot: 0,
        },
    };
    assert!(!lamp_lit(&boxed));
    assert!(!lit_adjacent(RoomKind::Cabin, &[boxed], CABIN, 4, 4));
    let art = board(&[(Kind::Painting, 5, 1)]);
    assert!(!lit_adjacent(RoomKind::Cabin, &art, CABIN, 7, 1));
}

#[test]
fn stowable_is_small_and_neither_cold_nor_suspect() {
    for kind in [
        Kind::PerfumeVial,
        Kind::Seedlings,
        Kind::MysteriousCrate,
        Kind::Fluff,
        Kind::CeilingLamp,
        Kind::WallLamp,
    ] {
        assert!(stowable(kind), "{kind:?} should stow");
    }
    for kind in [
        Kind::CryoCore,
        Kind::CometIce,
        Kind::GildedIdol,
        Kind::Couch,
        Kind::Cabinet,
        Kind::SuspiciousCrate,
        // A hole in the hull is not a thing you put in a drawer,
        // however small the hole is.
        Kind::Porthole,
    ] {
        assert!(!stowable(kind), "{kind:?} should refuse the cubby");
    }
}

/// The window family, and what makes it one: every size mounts on a
/// wall, none of it burns, none of it stows, and every size fits on
/// a wall of every room in the game. That last one is the aperture
/// math's whole contract with the cargo table — a window nobody can
/// hang anywhere is a window that would never show a sky.
#[test]
fn every_window_is_a_wall_fitting_that_fits_a_wall() {
    let family: Vec<Kind> = Kind::ALL.into_iter().filter(|kind| kind.window()).collect();
    assert_eq!(
        family,
        vec![Kind::Window, Kind::Porthole, Kind::BayWindow],
        "the family is the family"
    );
    let mut sizes: Vec<(u8, u8, u8)> = family.iter().map(|kind| kind.extent()).collect();
    sizes.sort_unstable();
    sizes.dedup();
    assert_eq!(sizes.len(), family.len(), "no two windows are one window");
    for kind in family {
        assert_eq!(kind.mount(), Mount::Wall, "{kind:?} hangs on a wall");
        assert_eq!(kind.flammable(), 0, "glass and brass do not burn");
        assert!(!kind.vital(), "a ship flies blind, unhappily");
        // A hull launches with ONE window and buys the rest, which
        // is what keeps an old save from being handed a bay window
        // it never paid the freight on.
        assert_eq!(
            kind.instrument(),
            kind == Kind::Window,
            "{kind:?} disagrees about what a hull comes with"
        );
        // Every room kind must be able to take it somewhere. Every
        // wall is "somewhere" now — a footprint is stated in the
        // wall's own frame, so the flanks take a non-square one the
        // same way the ends do — and the arbiter is the one asked,
        // because a hole punched through a wall is still a hole.
        for host in ROOM_KINDS {
            let (cols, rows) = host.grid();
            let fits = (0..rows).any(|y| {
                (0..cols).any(|x| {
                    matches!(
                        host.surface_of(x, y),
                        Some(Surf::Aft | Surf::Port | Surf::Starboard | Surf::Front)
                    ) && placement_check(&ship(), &[], 0, kind, CABIN, x, y).is_ok()
                })
            });
            assert!(fits, "{kind:?} fits no wall of a {host:?}");
        }
    }
}

#[test]
fn cubbies_fill_first_free_and_report_occupancy() {
    let cabinet = 7_u32;
    let mut pieces = vec![Piece {
        id: cabinet,
        kind: Kind::Cabinet,
        variant: 0,
        gnawed: false,
        loc: Loc::Hold {
            room: CABIN,
            x: 4,
            y: 4,
        },
    }];
    assert!(!cabinet_occupied(&pieces, cabinet));
    assert_eq!(free_cubby(&pieces, cabinet), Some(0));
    for slot in 0..CABINET_SLOTS {
        pieces.push(Piece {
            id: 100 + u32::from(slot),
            kind: Kind::PerfumeVial,
            variant: 0,
            gnawed: false,
            loc: Loc::Stow { cabinet, slot },
        });
    }
    assert!(cabinet_occupied(&pieces, cabinet));
    assert_eq!(free_cubby(&pieces, cabinet), None);
    assert!(!cabinet_occupied(&pieces, 8));
    assert_eq!(free_cubby(&pieces, 8), Some(0));
}

#[test]
fn dressing_rules_cover_surface_overlap_and_pinning() {
    let rooms = ship();
    let laid =
        |pieces: &[Piece], kind, x, y| dressing_check(&rooms, pieces, 9, kind, CABIN, x, y);
    assert_eq!(laid(&[], Kind::Rug, 4, 7), Ok(()));
    assert_eq!(
        laid(&[], Kind::Rug, 5, 1),
        Err(Violation::Affix(Mount::Floor))
    );
    assert_eq!(laid(&[], Kind::Rug, 10, 7), Err(Violation::Bounds));
    assert_eq!(laid(&[], Kind::PaintTin, 5, 0), Ok(()));
    assert_eq!(laid(&[], Kind::LuminousPaint, 4, 4), Ok(()));
    let mut pieces = vec![Piece {
        id: 0,
        kind: Kind::Rug,
        variant: 0,
        gnawed: false,
        loc: Loc::Laid {
            room: CABIN,
            x: 4,
            y: 7,
        },
    }];
    assert_eq!(laid(&pieces, Kind::PaintTin, 5, 7), Err(Violation::Overlap));
    assert_eq!(laid(&pieces, Kind::PaintTin, 3, 7), Ok(()));
    pieces.push(Piece {
        id: 1,
        kind: Kind::Couch,
        variant: 0,
        gnawed: false,
        loc: Loc::Hold {
            room: CABIN,
            x: 3,
            y: 7,
        },
    });
    assert_eq!(
        laid(&pieces, Kind::PaintTin, 3, 7),
        Err(Violation::Occupied)
    );
    let rug = Piece {
        id: 2,
        kind: Kind::Rug,
        variant: 0,
        gnawed: false,
        loc: Loc::Laid {
            room: CABIN,
            x: 4,
            y: 7,
        },
    };
    let couch = Piece {
        id: 3,
        kind: Kind::Couch,
        variant: 0,
        gnawed: false,
        loc: Loc::Hold {
            room: CABIN,
            x: 5,
            y: 7,
        },
    };
    assert!(laid_pinned(&rooms, &[rug, couch], &rug));
    assert!(!laid_pinned(&rooms, &[rug], &rug));
    assert_eq!(first_fit(&rooms, &[], 9, Kind::Rug), None);
    assert_eq!(
        dress_fit(&rooms, &[rug, couch], 9, Kind::Rug),
        Some((CABIN, 3, 3))
    );
}

#[test]
fn luminous_coats_light_their_neighbours() {
    let coat = Piece {
        id: 0,
        kind: Kind::LuminousPaint,
        variant: 0,
        gnawed: false,
        loc: Loc::Laid {
            room: CABIN,
            x: 5,
            y: 1,
        },
    };
    assert!(lit_adjacent(RoomKind::Cabin, &[coat], CABIN, 6, 1));
    assert!(lit_adjacent(RoomKind::Cabin, &[coat], CABIN, 5, 0));
    assert!(
        !lit_adjacent(RoomKind::Cabin, &[coat], CABIN, 5, 1),
        "never inside"
    );
    assert!(
        !lit_adjacent(RoomKind::Cabin, &[coat], CABIN, 6, 0),
        "corners do not count"
    );
    let tin = Piece {
        id: 1,
        kind: Kind::PaintTin,
        variant: 0,
        gnawed: false,
        loc: Loc::Laid {
            room: CABIN,
            x: 7,
            y: 1,
        },
    };
    assert!(!lit_adjacent(RoomKind::Cabin, &[tin], CABIN, 6, 1));
}

/// Ownership is a function of tile class, and nothing else.
#[test]
fn ownership_reads_the_tile_class() {
    let mut rooms = Rooms::new();
    let trade = rooms
        .spawn(RoomKind::Trade, CABIN)
        .expect("a trade room attaches");
    let at = |x, y| Loc::Hold { room: trade, x, y };
    // The trade room's aft floor row is its own stock; its front
    // floor row is the chalked offer square; the deck between is
    // ordinary, and so is everything aboard.
    assert!(!player_owned(&rooms, &[], at(3, 3)));
    assert!(player_owned(&rooms, &[], at(3, 6)));
    assert!(player_owned(&rooms, &[], at(3, 4)));
    assert!(player_owned(
        &rooms,
        &[],
        Loc::Hold {
            room: CABIN,
            x: 4,
            y: 4
        }
    ));
}

#[test]
fn held_piece_ignores_its_own_footprint() {
    let rooms = ship();
    let pieces = board(&[(Kind::RationBricks, 4, 4)]);
    assert_eq!(
        placement_check(&rooms, &pieces, 0, Kind::RationBricks, CABIN, 4, 4),
        Ok(())
    );
    assert_eq!(
        placement_check(&rooms, &pieces, 0, Kind::RationBricks, CABIN, 5, 4),
        Ok(())
    );
}

/// A berth's room: a room berth is its room, a cubby is its cabinet's
/// room, and a cubby whose cabinet is gone is in no room.
#[test]
fn a_cubby_is_in_its_cabinets_room() {
    let cabinet = Piece { id: 7, kind: Kind::Cabinet, variant: 0, gnawed: false, loc: Loc::Hold { room: 2, x: 3, y: 4 } };
    let vial = Piece { id: 8, kind: Kind::PerfumeVial, variant: 1, gnawed: false, loc: Loc::Stow { cabinet: 7, slot: 0 } };
    let pieces = [vial, cabinet];
    assert_eq!(Loc::Hold { room: 2, x: 0, y: 0 }.room(&pieces), Some(2));
    assert_eq!(Loc::Laid { room: 1, x: 0, y: 0 }.room(&pieces), Some(1));
    assert_eq!(vial.loc.room(&pieces), cabinet.loc.room(&pieces));
    assert_eq!(vial.loc.room(&pieces), Some(2));
    assert_eq!(Loc::Stow { cabinet: 99, slot: 0 }.room(&pieces), None);
}
