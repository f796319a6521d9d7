use space_trucking::sim::barter::{
    STOCK_MAX, STOCK_MIN, VALUE, VALUE_MAX, compose, open, piece_value, stock_kinds, tiles_of,
    visit_values, wants,
};
use space_trucking::sim::cargo::{KIND_COUNT, Kind, Loc, Piece};
use space_trucking::sim::map::{COMET, GUILD, HERMITAGE, POI_COUNT, PoiId, UMBRA, WANDERER};
use space_trucking::sim::room::{CABIN, RoomId, RoomKind, Rooms, Tile};

/// Venus, whose produce is the perfume at kind index 0.
const VENUS: PoiId = 0;

/// A ship with a trade room attached, and that room's id.
fn stall() -> (Rooms, RoomId) {
    let mut rooms = Rooms::new();
    let trade = rooms
        .spawn(RoomKind::Trade, CABIN)
        .expect("a trade room attaches");
    (rooms, trade)
}

/// A piece at `loc`, id and variant immaterial to valuation.
const fn piece(kind: Kind, loc: Loc) -> Piece {
    Piece {
        id: 0,
        kind,
        variant: 0,
        gnawed: false,
        loc,
    }
}

#[test]
fn same_visit_regenerates_identically_and_the_next_differs() {
    let stock = |n| stock_kinds(42, VENUS, n, &[], 0, false, 5);
    assert_eq!(stock(3), stock(3));
    assert_eq!(visit_values(42, VENUS, 3), visit_values(42, VENUS, 3));
    assert_eq!(open(42, VENUS, 3), open(42, VENUS, 3));
    let differs = (4..10).any(|n| {
        stock(n) != stock(3) || visit_values(42, VENUS, n) != visit_values(42, VENUS, 3)
    });
    assert!(differs, "six later visits identical to visit 3");
}

#[test]
fn values_jitter_within_one_of_base_and_guild_crate_stays_zero() {
    for station in 0..POI_COUNT as PoiId {
        for n in 1..40 {
            let values = visit_values(99, station, n);
            for (k, &value) in values.iter().enumerate() {
                let base = VALUE[usize::from(station)][k];
                assert!(value <= VALUE_MAX);
                assert!(
                    i16::from(value).abs_diff(i16::from(base)) <= 1,
                    "kind {k} at station {station} jittered {base} -> {value}"
                );
            }
            assert_eq!(
                visit_values(99, GUILD, n)[Kind::SuspiciousCrate.index()],
                0,
                "the Guild never wants its crates back"
            );
        }
    }
}

#[test]
fn wants_skip_zero_valued_kinds_and_break_ties_by_index() {
    let values = [
        2, 4, 4, 0, 1, 0, 0, 0, 6, 0, 0, 0, 0, 0, 0, 0, 0, 0, 0, 0, 0, 0, 0, 0, 0, 0, 0, 0, 0,
        0, 0, 0,
    ];
    assert_eq!(
        wants(&values),
        [
            (Kind::SuspiciousCrate, 3), // value 6
            (Kind::GildedIdol, 2),      // value 4, lower index wins the tie
            (Kind::RationBricks, 2),    // value 4
        ]
    );
    for station in 0..POI_COUNT as PoiId {
        for n in 1..30 {
            for (_, pips) in wants(&visit_values(7, station, n)) {
                assert!((1..=3).contains(&pips), "pips {pips} out of range");
            }
        }
    }
}

/// The composition law: the room takes the best pile the proposal
/// covers, marked kinds first, ties broken deterministically.
#[test]
fn a_room_composes_the_best_pile_the_proposal_covers() {
    // Budget 5 against three goods costing 4, 3, and 2.
    let candidates = [(10, 4, false), (11, 3, false), (12, 2, false)];
    assert_eq!(compose(5, &candidates), vec![10]);
    assert_eq!(compose(9, &candidates), vec![10, 11, 12]);
    assert_eq!(compose(0, &candidates), Vec::<u32>::new());
    // A mark jumps the queue: with the cheap one marked, the budget
    // buys it first and the dear one no longer fits.
    let marked = [(10, 4, false), (11, 3, false), (12, 2, true)];
    assert_eq!(compose(5, &marked), vec![11, 12]);
    // Ties break by id, always the same way.
    let tied = [(20, 3, false), (5, 3, false)];
    assert_eq!(compose(3, &tied), vec![5]);
}

#[test]
fn a_well_lit_painting_prices_one_higher_on_the_offer_area() {
    let (rooms, trade) = stall();
    let mut values = [0_u8; KIND_COUNT];
    values[Kind::Painting.index()] = 3;
    let offer = tiles_of(&rooms, trade, Tile::Offer)[0];
    let art = piece(
        Kind::Painting,
        Loc::Hold {
            room: trade,
            x: offer.0,
            y: offer.1,
        },
    );
    assert_eq!(piece_value(&rooms, &art, &[art], &values, false), 3);
    // A lamp lit aboard appraises the proposal one dearer.
    let lamp = piece(
        Kind::CeilingLamp,
        Loc::Hold {
            room: CABIN,
            x: 16,
            y: 4,
        },
    );
    assert_eq!(piece_value(&rooms, &art, &[art, lamp], &values, false), 4);
    // Berthed aboard, the rule is literal adjacency instead: hung on
    // the far aft wall, the same lamp lights nothing.
    let hung = piece(
        Kind::Painting,
        Loc::Hold {
            room: CABIN,
            x: 5,
            y: 1,
        },
    );
    assert_eq!(piece_value(&rooms, &hung, &[hung, lamp], &values, false), 3);
}

#[test]
fn a_gnawed_piece_prices_two_lower_with_a_floor_at_zero() {
    let (rooms, _) = stall();
    let mut values = [0_u8; KIND_COUNT];
    values[Kind::BrinePearls.index()] = 5;
    values[Kind::PerfumeVial.index()] = 1;
    let at = Loc::Hold {
        room: CABIN,
        x: 4,
        y: 4,
    };
    let fresh = piece(Kind::BrinePearls, at);
    let bitten = Piece {
        gnawed: true,
        ..fresh
    };
    assert_eq!(piece_value(&rooms, &fresh, &[fresh], &values, false), 5);
    assert_eq!(piece_value(&rooms, &bitten, &[bitten], &values, false), 3);
    // The Umbra Market calls the bite artisanal and pays a premium.
    assert_eq!(piece_value(&rooms, &bitten, &[bitten], &values, true), 7);
    // The malus floors at zero rather than going negative.
    let cheap = Piece {
        kind: Kind::PerfumeVial,
        gnawed: true,
        ..fresh
    };
    assert_eq!(piece_value(&rooms, &cheap, &[cheap], &values, false), 0);
}

#[test]
fn stock_leans_toward_produce_and_ordinary_rolls_never_yield_crates() {
    let mut perfume = 0_usize;
    let mut total = 0_usize;
    let mut kinds_seen = std::collections::BTreeSet::new();
    // A crate aboard suppresses the special offer, so every good
    // here comes from the ordinary rolls under test.
    let aboard = [piece(
        Kind::SuspiciousCrate,
        Loc::Hold {
            room: CABIN,
            x: 4,
            y: 4,
        },
    )];
    for n in 1..200 {
        let stock = stock_kinds(0xFEED, VENUS, n, &aboard, 0, false, 5);
        assert!((STOCK_MIN..=STOCK_MAX).contains(&stock.len()));
        for kind in stock {
            assert_ne!(kind, Kind::SuspiciousCrate);
            kinds_seen.insert(kind.index());
            perfume += usize::from(kind == Kind::PerfumeVial);
            total += 1;
        }
    }
    assert!(
        perfume * 10 > total * 5,
        "only {perfume}/{total} goods were Venus produce"
    );
    assert!(perfume < total, "the 30% branch never fired");
    assert!(kinds_seen.len() >= 3, "stock lacks variety: {kinds_seen:?}");
}

#[test]
fn far_stations_offer_crates_one_in_five_and_respect_the_singleton() {
    let mut offered = 0_usize;
    for n in 1..=600 {
        let stock = stock_kinds(0xFEED, VENUS, n, &[], 0, false, 5);
        let crates = stock
            .iter()
            .filter(|&&kind| kind == Kind::SuspiciousCrate)
            .count();
        assert!(crates <= 1, "visit {n} stocked {crates} crates");
        offered += crates;
    }
    assert!(
        (70..=180).contains(&offered),
        "{offered}/600 crate offers is far from one in five"
    );
    for station in 0..POI_COUNT as PoiId {
        if matches!(
            station,
            GUILD | HERMITAGE | COMET | WANDERER
        ) {
            continue;
        }
        let some = (1..=60).any(|n| {
            stock_kinds(0xFEED, station, n, &[], 0, false, 5).contains(&Kind::SuspiciousCrate)
        });
        assert!(some, "station {station} never offered a crate");
    }
    // One aboard anywhere suppresses the offer.
    let aboard = [piece(
        Kind::SuspiciousCrate,
        Loc::Hold {
            room: CABIN,
            x: 4,
            y: 4,
        },
    )];
    for n in 1..=100 {
        assert!(
            !stock_kinds(0xFEED, VENUS, n, &aboard, 0, false, 5)
                .contains(&Kind::SuspiciousCrate),
            "visit {n} offered a second crate"
        );
    }
}

#[test]
fn the_guild_never_offers_crates() {
    for n in 1..=200 {
        assert!(
            !stock_kinds(0xFEED, GUILD, n, &[], 0, false, 5).contains(&Kind::SuspiciousCrate),
            "the Guild stocked a crate on visit {n}"
        );
    }
}

#[test]
fn every_new_fixture_is_wanted_somewhere_and_umbra_snubs_lamps() {
    for kind in [
        Kind::CeilingLamp,
        Kind::WallLamp,
        Kind::FloorLamp,
        Kind::Couch,
        Kind::Painting,
        Kind::Cabinet,
        Kind::Rug,
        Kind::PaintTin,
        Kind::LuminousPaint,
    ] {
        let asked = (0..POI_COUNT as PoiId).any(|station| {
            (1..=300).any(|n| {
                wants(&visit_values(0xF1C5, station, n))
                    .iter()
                    .any(|&(want, _)| want == kind)
            })
        });
        assert!(asked, "{kind:?} is never in any wants row");
    }
    for lamp in [Kind::CeilingLamp, Kind::WallLamp, Kind::FloorLamp] {
        assert_eq!(VALUE[usize::from(UMBRA)][lamp.index()], 0);
    }
}
