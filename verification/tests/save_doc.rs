use space_trucking::sim::barter::tiles_of;
use space_trucking::sim::cargo::{Kind, Loc, Piece, first_fit, placement_check};
use space_trucking::sim::encounter::{Drone, Encounter, EncounterKind};
use space_trucking::sim::event::Phase;
use space_trucking::sim::map::ShipState;
use space_trucking::sim::rats::Rat;
use space_trucking::sim::room::{CABIN, RoomKind, Rooms, Tile};
use space_trucking::sim::save::SaveError;
use space_trucking::sim::save::doc::{SaveDoc, edges_of, write_save};
use space_trucking::sim::save::lines::RoomEdge;
use space_trucking::sim::save::read::read_save;
use space_trucking::sim::run::KNOWN_ALL;

fn piece(id: u32, kind: Kind, loc: Loc) -> Piece {
    Piece {
        id,
        kind,
        variant: (id % 4) as u8,
        gnawed: id % 2 == 0,
        loc,
    }
}

fn hold((room, x, y): (u8, u8, u8)) -> Loc {
    Loc::Hold { room, x, y }
}

/// A docked-at-the-market document with a cabinet and its cubby, loose
/// cargo, a marked piece of the market's stock, a stowaway and a drone.
fn worked() -> (SaveDoc, Rooms) {
    let mut rooms = Rooms::new();
    let trade = rooms.spawn(RoomKind::Trade, CABIN).expect("the dock has room");
    let stock = tiles_of(&rooms, trade, Tile::Stock);
    let mut pieces = Vec::new();
    let cabinet = first_fit(&rooms, &pieces, 1, Kind::Cabinet).expect("a cabinet fits aboard");
    pieces.push(piece(1, Kind::Cabinet, hold(cabinet)));
    pieces.push(piece(2, Kind::PerfumeVial, Loc::Stow { cabinet: 1, slot: 0 }));
    let bricks = first_fit(&rooms, &pieces, 3, Kind::RationBricks).expect("bricks fit aboard");
    pieces.push(piece(3, Kind::RationBricks, hold(bricks)));
    pieces.push(piece(4, Kind::Seedlings, hold((trade, stock[0].0, stock[0].1))));
    let doc = SaveDoc {
        seed: 42,
        tick: 90,
        rng: 0xDEAD_BEEF_0123_4567,
        warp: true,
        paused: false,
        deliveries: 3,
        karma: 7,
        familiar: vec![0xAB, 0x1_2345, 0, 0xFFFF, 1, 2, 3, 4, 5, 6, 7, 8],
        visits: (0..12).collect(),
        ship: ShipState::Traveling {
            from: 6,
            to: 7,
            progress: 300,
            leg_ticks: 600,
        },
        selected: Some(7),
        stoke: 1800,
        legs: 4,
        jump_at: Some(350),
        phase: Phase::Omen { elapsed: 12 },
        light: 0x3F80_0000,
        swell: 0x3E99_999A,
        encounter: Some(Encounter {
            kind: EncounterKind::Whale,
            start: 10,
            end: 400,
            opened: true,
            closed: false,
            used: false,
        }),
        drone: Some(Drone {
            start: 5,
            end: 90,
            attached: true,
            gone: false,
            swats: 1,
        }),
        parade_at: None,
        comet_visit: Some(3),
        rat: Some(Rat {
            cell: (4, 1),
            prev_cell: (2, 3),
            moved_at: 30,
            next_move: 700,
            next_nibble: 2800,
            chases: 1,
        }),
        rooms: edges_of(&rooms),
        marks: vec![4],
        pieces,
        next_piece: 5,
    };
    (doc, rooms)
}

fn text_of(doc: &SaveDoc) -> String {
    String::from_utf8(write_save(doc)).expect("saves are text")
}

fn read(text: &str) -> Result<(SaveDoc, Rooms), SaveError> {
    read_save(text.as_bytes())
}

/// `text` with line `i` replaced by `line`.
fn with_line(text: &str, i: usize, line: &str) -> String {
    let mut lines: Vec<&str> = text.lines().collect();
    lines[i] = line;
    let mut out = lines.join("\n");
    out.push('\n');
    out
}

/// `text` with the first line that starts with `needle` replaced by
/// `line`.
fn replacing(text: &str, needle: &str, line: &str) -> String {
    let i = text
        .lines()
        .position(|l| l.starts_with(needle))
        .unwrap_or_else(|| panic!("needle {needle:?} not found in save"));
    with_line(text, i, line)
}

#[test]
fn a_written_document_reads_back_whole() {
    let (doc, rooms) = worked();
    let text = text_of(&doc);
    let (back, graph) = read(&text).expect("the worked document reads");
    assert_eq!(back, doc);
    assert_eq!(edges_of(&graph), edges_of(&rooms), "the graph replays from its edges");
    assert_eq!(text_of(&back), text, "and writes back to the same text");
}

#[test]
fn the_document_is_written_one_line_per_field() {
    let (doc, _) = worked();
    let text = text_of(&doc);
    let lines: Vec<&str> = text.lines().collect();
    assert_eq!(lines[0], "STV16");
    assert_eq!(lines[1], "seed 42");
    assert_eq!(lines[3], "rng deadbeef01234567");
    assert_eq!(lines[4], "warp 1");
    assert_eq!(lines[8], "familiar 00ab 12345 0000 ffff 0001 0002 0003 0004 0005 0006 0007 0008");
    assert_eq!(lines[9], "visits 0 1 2 3 4 5 6 7 8 9 10 11");
    assert_eq!(lines[10], "ship travel 6 7 300 600 7 1800");
    assert_eq!(lines[12], "omen 350 omen 12 3f800000 3e99999a");
    assert_eq!(lines[15], "parade - 3");
    assert_eq!(lines[17], "rooms 3");
    assert_eq!(lines[18], "room 0 0 - - -");
    assert_eq!(lines[21], "marks 1 4");
    assert_eq!(*lines.last().unwrap(), "next_piece 5");
    assert!(text.ends_with('\n'));
}

#[test]
fn headers_that_are_not_this_builds_are_refused() {
    assert_eq!(read("").map(|_| ()), Err(SaveError::BadMagic));
    assert_eq!(read("nonsense").map(|_| ()), Err(SaveError::BadMagic));
    assert_eq!(read("STV1\nseed 1\n").map(|_| ()), Err(SaveError::UnsupportedVersion));
    let (doc, _) = worked();
    let newer = text_of(&doc).replacen("STV16", "STV17", 1);
    assert_eq!(read(&newer).map(|_| ()), Err(SaveError::UnsupportedVersion));
    let ancient = text_of(&doc).replacen("STV16", "STV3", 1);
    assert_eq!(read(&ancient).map(|_| ()), Err(SaveError::UnsupportedVersion));
}

#[test]
fn the_headers_before_this_one_still_read() {
    let (doc, _) = worked();
    for older in ["STV15", "STV14", "STV13", "STV12", "STV11"] {
        let text = text_of(&doc).replacen("STV16", older, 1);
        let (back, graph) = read(&text).unwrap_or_else(|e| panic!("{older} must stay readable: {e:?}"));
        assert_eq!(back.seed, doc.seed);
        assert_eq!(back.ship, doc.ship);
        assert_eq!(back.rooms, doc.rooms, "{older}: the graph replays as written");
        assert_eq!(edges_of(&graph), doc.rooms);
        assert_eq!(back.next_piece, doc.next_piece);
        assert_eq!(back.pieces.len(), doc.pieces.len(), "{older}: nothing is lost");
        for (was, now) in doc.pieces.iter().zip(back.pieces.iter()) {
            assert_eq!((was.id, was.kind, was.variant, was.gnawed), (now.id, now.kind, now.variant, now.gnawed));
            match (was.loc, now.loc) {
                (Loc::Hold { room: a, .. }, Loc::Hold { room: b, .. }) => assert_eq!(a, b, "{older}: same room"),
                (a, b) => assert_eq!(a, b, "{older}: a stowed piece stays stowed"),
            }
        }
        assert_eq!(&back.pieces[..3], &doc.pieces[..3], "{older}: the cabin's cargo is untouched");
    }
}

#[test]
fn older_boards_walk_cargo_out_of_a_rooms_own_hardware() {
    let (mut doc, rooms) = worked();
    let trade = doc.rooms.iter().find(|e| e.kind == RoomKind::Trade).expect("the market is docked").id;
    let fixture = tiles_of(&rooms, trade, Tile::Fixture);
    assert!(!fixture.is_empty(), "the market keeps its counter");
    let stuck = (trade, fixture[0].0, fixture[0].1);
    doc.pieces.push(piece(5, Kind::RationBricks, hold(stuck)));
    doc.next_piece = 6;
    let text = text_of(&doc);
    let (now, _) = read(&text).expect("this build's own header reads");
    assert_eq!(now.pieces, doc.pieces, "this build's board is read as written");
    for older in ["STV15", "STV14", "STV13", "STV12", "STV11"] {
        let (back, graph) = read(&text.replacen("STV16", older, 1)).expect("an older header reads");
        assert_eq!(back.pieces.len(), doc.pieces.len(), "{older}: nothing is lost");
        assert_eq!(&back.pieces[..3], &doc.pieces[..3], "{older}: the cabin's cargo stays put");
        let walked = back.pieces[4];
        assert_eq!((walked.id, walked.kind), (5, Kind::RationBricks));
        let Loc::Hold { room, x, y } = walked.loc else {
            panic!("{older}: the bricks still stand in a room");
        };
        assert_eq!(room, trade, "{older}: the bricks stay in their own room");
        assert_ne!((room, x, y), stuck, "{older}: the bricks leave the counter");
        assert!(
            placement_check(&graph, &back.pieces, 5, Kind::RationBricks, room, x, y).is_ok(),
            "{older}: the bricks stand where the arbiter accepts them"
        );
    }
}

#[test]
fn a_truncated_document_ends_too_early() {
    let (doc, _) = worked();
    let text = text_of(&doc);
    let lines: Vec<&str> = text.lines().collect();
    for keep in 1..lines.len() {
        let mut cut = lines[..keep].join("\n");
        cut.push('\n');
        assert_eq!(
            read(&cut).map(|_| ()),
            Err(SaveError::Parse { line: 0 }),
            "save truncated to {keep}/{} lines parsed anyway",
            lines.len()
        );
    }
}

#[test]
fn a_mangled_line_is_refused_at_that_line() {
    let (doc, _) = worked();
    let text = text_of(&doc);
    let count = text.lines().count();
    let lines: Vec<&str> = text.lines().collect();
    for target in 0..count {
        for garbage in ["", "!!! ???", "piece x y z", "seed NaN", "\u{1F680}"] {
            let bad = with_line(&text, target, garbage);
            let expected = if target == 0 { SaveError::BadMagic } else { SaveError::Parse { line: target + 1 } };
            assert_eq!(
                read(&bad).map(|_| ()),
                Err(expected),
                "line {target} replaced by {garbage:?} parsed anyway"
            );
            let unterminated: String = lines
                .iter()
                .enumerate()
                .map(|(i, line)| if i == target { garbage } else { line })
                .collect::<Vec<_>>()
                .join("\n");
            assert!(read(&unterminated).is_err(), "line {target} replaced by {garbage:?} parsed anyway");
        }
    }
}

#[test]
fn out_of_range_fields_are_refused() {
    let (doc, _) = worked();
    let text = text_of(&doc);
    for (needle, bad) in [
        ("tick", "tick -90"),
        ("tick", "tick 99999999999999999999999"),
        ("ship", "ship travel 6 12 300 600 7 1800"),
        ("ship", "ship travel 6 7 601 600 7 1800"),
        ("ship", "ship travel 6 7 0 0 7 1800"),
        ("rat", "rat 22 1 2 3 30 700 2800 1"),
        ("rat", "rat 4 1 2 3 30 700 2800 3"),
        ("deliveries", "deliveries 4294967296"),
        ("familiar", "familiar 1 2 3"),
        ("rooms", "rooms 0"),
        ("rooms", "rooms 11"),
        ("piece 3 ", "piece 3 99 0 0 hold 0 4 4"),
        ("piece 3 ", "piece 3 12 0 0 hold 9 4 4"),
        ("piece 3 ", "piece 3 12 0 2 hold 0 4 4"),
        ("piece 3 ", "piece 3 12 0 0 nowhere 0"),
        ("marks", "marks 4097"),
    ] {
        let broken = replacing(&text, needle, bad);
        assert!(read(&broken).is_err(), "{bad:?} parsed anyway");
    }
}

/// A pre-STV12 document may hang a room off a slot its kind has since
/// given up: here the market under the cabin's ladder, which no market
/// has any more. The room is re-seated through the spawn walk rather
/// than lost, it keeps its id, and everything berthed in it comes with
/// it. A current document gets no such mercy.
#[test]
fn pre_stv12_saves_reseat_rooms_that_lost_their_port() {
    let (doc, rooms) = worked();
    let text = text_of(&doc);
    let dock = doc.rooms[2];
    assert_eq!((dock.id, dock.kind), (2, RoomKind::Trade));
    let honest = format!("room 2 {} 0 0 0", RoomKind::Trade.token());
    assert!(text.lines().any(|l| l == honest), "the market mates the cabin's aft door");
    let hatched = format!("room 2 {} 0 4 5", RoomKind::Trade.token());
    let forged = text.replacen("STV16", "STV11", 1).replacen(&honest, &hatched, 1);
    let (back, graph) = read(&forged).expect("an STV11 document must still load");
    assert_eq!(graph.kind(2), Some(RoomKind::Trade), "the dock survived");
    assert_eq!(graph.get(2).expect("room two is placed").pose.z, 0, "re-seated through a door");
    assert_eq!(back.rooms[2].id, 2, "the room keeps its id");
    assert_eq!(edges_of(&graph), back.rooms, "the document names the graph it built");
    assert_eq!(edges_of(&graph), edges_of(&rooms), "the walk finds the berth the market has now");
    let stocked = |pieces: &[Piece]| pieces.iter().filter(|p| matches!(p.loc, Loc::Hold { room: 2, .. })).count();
    assert_eq!(stocked(&back.pieces), stocked(&doc.pieces), "the market's goods came with it");
    let lying = text.replacen(&honest, &hatched, 1);
    assert_eq!(read(&lying).map(|_| ()), Err(SaveError::Parse { line: 21 }), "a save that lies fails safe");
}

#[test]
fn lying_room_lines_are_refused() {
    let (doc, _) = worked();
    let text = text_of(&doc);
    let third = doc.rooms[2];
    let RoomEdge { id, kind, anchor } = third;
    let (a, ap, p) = anchor.expect("the dock hangs from a mate");
    let honest = format!("room {id} {} {a} {ap} {p}", kind.token());
    assert!(text.contains(&honest));
    for bad in [
        format!("room {id} {} {a} {ap} 9", kind.token()),
        format!("room {id} {} 7 {ap} {p}", kind.token()),
        format!("room {id} 9 {a} {ap} {p}"),
        format!("room {id} {} - - -", kind.token()),
        format!("room 1 {} {a} {ap} {p}", kind.token()),
        format!("room {id} {} {a} - {p}", kind.token()),
    ] {
        let lying = text.replacen(&honest, &bad, 1);
        assert_eq!(read(&lying).map(|_| ()), Err(SaveError::Parse { line: 21 }), "{bad:?} parsed anyway");
    }
}

#[test]
fn lying_stow_lines_are_refused_once_the_board_is_in() {
    let (doc, _) = worked();
    let text = text_of(&doc);
    let last = text.lines().count();
    for bad in [
        "piece 2 0 2 1 stow 4242 0",
        "piece 2 0 2 1 stow 3 0",
        "piece 2 21 2 1 stow 1 0",
    ] {
        let lying = replacing(&text, "piece 2 ", bad);
        assert_eq!(
            read(&lying).map(|_| ()),
            Err(SaveError::Parse { line: last }),
            "{bad:?} parsed anyway"
        );
    }
    let doubled = text.replacen("next_piece 5", "piece 5 0 1 1 stow 1 0\nnext_piece 6", 1);
    assert_eq!(read(&doubled).map(|_| ()), Err(SaveError::Parse { line: last + 1 }), "a cubby holds one piece");
}

#[test]
fn marks_read_back_tidy_and_only_on_stock() {
    let (doc, _) = worked();
    let text = text_of(&doc);
    let messy = replacing(&text, "marks", "marks 5 4 3 4 4 99");
    let (back, _) = read(&messy).expect("a messy marks line still reads");
    assert_eq!(back.marks, vec![4], "each once, and only the market's stock");
    let none = replacing(&text, "marks", "marks 0");
    assert!(read(&none).expect("no marks").0.marks.is_empty());
}

#[test]
fn a_missing_stoke_reads_as_an_unlit_fire() {
    let (doc, _) = worked();
    let text = text_of(&doc);
    let short = replacing(&text, "ship", "ship docked 6 -");
    let (back, _) = read(&short).expect("the stoke is optional");
    assert_eq!(back.ship, ShipState::Docked(6));
    assert_eq!(back.selected, None);
    assert_eq!(back.stoke, 0);
}

#[test]
fn pre_stv13_saves_widen_the_ledger_they_were_written_with() {
    let (mut doc, _) = worked();
    let mut windows = 0_u32;
    for i in 0..32 {
        let kind = Kind::from_index(i).expect("the table has thirty-two kinds");
        if kind.window() {
            windows |= 1 << i;
        }
    }
    let narrow = KNOWN_ALL & !windows;
    doc.familiar = vec![0, 0x00ff, narrow, 0, 0, 0, narrow, 0, 0, 0, 0, 0];
    let text = text_of(&doc);
    let (old, _) = read(&text.replacen("STV16", "STV12", 1)).expect("an STV12 document must still load");
    assert_eq!(old.familiar[6], KNOWN_ALL, "home turf knows the whole table, glass included");
    assert_eq!(old.familiar[2], KNOWN_ALL, "so does an exhausted station");
    assert_eq!(old.familiar[1], 0x00ff, "a part-explored station has simply not been shown any glass");
    let (now, _) = read(&text).expect("a current document loads");
    assert_eq!(now.familiar[2], narrow, "a current ledger is read verbatim");
    let (stv13, _) = read(&text.replacen("STV16", "STV13", 1)).expect("an STV13 document loads");
    assert_eq!(stv13.familiar[2], narrow, "an STV13 ledger is read verbatim");
}
