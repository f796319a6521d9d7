use space_trucking::sim::cargo::{Kind, Loc, placement_check, placement_legal, player_owned};
use space_trucking::sim::map::{GUILD, ShipState};
use space_trucking::sim::room::{CABIN, RoomKind, Tile};
use space_trucking::sim::barter::tiles_of;
use space_trucking::sim::run::{KNOWN_ALL, new_run};

#[test]
fn a_new_run_is_docked_at_the_guild_with_the_starter_cargo_aboard() {
    let seed = 7;
    let mut rng = fastrand::Rng::with_seed(seed);
    let run = new_run(seed, &mut rng);
    assert_eq!(run.seed, seed);
    assert_eq!(run.tick, 0);
    assert_eq!(run.ship, ShipState::Docked(GUILD));
    let starter = [
        (Kind::ScrapAlloy, 4, 5),
        (Kind::PerfumeVial, 3, 3),
        (Kind::BrinePearls, 6, 3),
        (Kind::CeilingLamp, 18, 6),
        (Kind::Window, 4, 12),
        (Kind::Porthole, 1, 8),
        (Kind::ChartTank, 12, 5),
        (Kind::EtaGauge, 5, 11),
        (Kind::DestPreview, 3, 12),
        (Kind::LaunchLever, 5, 10),
    ];
    for (i, &(kind, x, y)) in starter.iter().enumerate() {
        let piece = run.pieces[i];
        assert_eq!(piece.id, i as u32);
        assert_eq!(piece.kind, kind);
        assert_eq!(piece.loc, Loc::Hold { room: CABIN, x, y });
        assert!(piece.variant < 4);
        assert!(!piece.gnawed);
        assert!(
            placement_legal(&run.rooms, &run.pieces, piece.id, kind, CABIN, x, y),
            "starter cargo must be stowed legally: {kind:?}"
        );
    }
    for (poi, (&visits, &known)) in run.visits.iter().zip(run.familiar.iter()).enumerate() {
        if poi == usize::from(GUILD) {
            assert_eq!((visits, known), (1, KNOWN_ALL), "the Guild is home turf");
        } else {
            assert_eq!((visits, known), (0, 0), "everywhere else is fog");
        }
    }
}

#[test]
fn a_new_run_has_the_guilds_market_alongside_with_its_goods_out() {
    let seed = 42;
    let run = new_run(seed, &mut fastrand::Rng::with_seed(seed));
    assert_eq!(run.rooms.kind(0), Some(RoomKind::Cabin));
    assert_eq!(run.rooms.kind(1), Some(RoomKind::Burner));
    assert_eq!(run.rooms.kind(2), Some(RoomKind::Trade));
    let barter = run.barter.expect("the Guild's market is alongside");
    assert_eq!((barter.station, barter.visit), (GUILD, 1));
    let market = run.rooms.find(RoomKind::Trade).expect("the market is attached");
    let stock = tiles_of(&run.rooms, market, Tile::Stock);
    let goods: Vec<_> = run.pieces[10..].iter().collect();
    assert!(!goods.is_empty(), "the market puts its goods out");
    assert_eq!(run.next_piece as usize, run.pieces.len());
    for (k, piece) in goods.iter().enumerate() {
        assert_eq!(piece.id as usize, 10 + k);
        let Loc::Hold { room, x, y } = piece.loc else {
            panic!("goods stand on the market's tiles");
        };
        assert_eq!(room, market);
        assert!(stock.contains(&(x, y)), "goods stand on stock tiles");
    }
    for piece in &run.pieces[10..] {
        assert!(!player_owned(&run.rooms, &run.pieces, piece.loc), "the market's goods are not the player's");
    }
    let standing: Vec<_> = run.pieces.iter().filter(|p| p.id != 0 && matches!(p.loc, Loc::Hold { .. })).copied().collect();
    assert_eq!(
        placement_check(&run.rooms, &run.pieces, 0, Kind::ScrapAlloy, CABIN, 4, 5),
        placement_check(&run.rooms, &standing, 0, Kind::ScrapAlloy, CABIN, 4, 5),
        "only the other standing pieces bear on a placement"
    );
    let again = new_run(seed, &mut fastrand::Rng::with_seed(seed));
    assert_eq!(again.pieces, run.pieces, "a run is a function of its seed");
}
