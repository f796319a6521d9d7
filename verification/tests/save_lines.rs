use space_trucking::sim::cargo::{Kind, Loc, Piece};
use space_trucking::sim::encounter::{Drone, Encounter, EncounterKind};
use space_trucking::sim::rats::Rat;
use space_trucking::sim::room::{CABIN, Rooms};
use space_trucking::sim::save::{
    read_drone, read_enc, read_piece, read_rat, write_drone, write_enc, write_piece, write_rat,
};

fn line_of(write: impl FnOnce(&mut Vec<u8>)) -> String {
    let mut out = Vec::new();
    write(&mut out);
    String::from_utf8(out).expect("saves are text")
}

#[test]
fn a_piece_line_reads_the_way_it_was_written() {
    let rooms = Rooms::new();
    let pieces = [
        Piece {
            id: 17,
            kind: Kind::RationBricks,
            variant: 3,
            gnawed: true,
            loc: Loc::Hold { room: CABIN, x: 4, y: 5 },
        },
        Piece {
            id: 4_000_000_000,
            kind: Kind::PerfumeVial,
            variant: 0,
            gnawed: false,
            loc: Loc::Stow { cabinet: 9, slot: 3 },
        },
        Piece {
            id: 2,
            kind: Kind::Rug,
            variant: 1,
            gnawed: false,
            loc: Loc::Laid { room: CABIN, x: 5, y: 6 },
        },
    ];
    let text = line_of(|out| write_piece(out, &pieces[0]));
    assert_eq!(text, "piece 17 2 3 1 hold 0 4 5\n");
    for piece in pieces {
        let mut out = Vec::new();
        write_piece(&mut out, &piece);
        assert_eq!(read_piece(&rooms, &out), Some(piece));
    }
}

#[test]
fn lying_piece_lines_are_refused() {
    let rooms = Rooms::new();
    for line in [
        "",
        "piece",
        "pieces 1 2 3 0 hold 0 4 5",
        "piece 1 2 3 2 hold 0 4 5",
        "piece 1 99 3 0 hold 0 4 5",
        "piece 1 2 300 0 hold 0 4 5",
        "piece 1 2 3 0 hold 9 4 5",
        "piece 1 2 3 0 hold 0 21 5",
        "piece 1 2 3 0 hold 0 4",
        "piece 1 2 3 0 laid 0 4 5",
        "piece 1 2 3 0 stow 1 4",
        "piece 1 2 3 0 float 0 4 5",
        "piece -1 2 3 0 hold 0 4 5",
        "piece 99999999999 2 3 0 hold 0 4 5",
    ] {
        assert_eq!(read_piece(&rooms, line.as_bytes()), None, "{line:?}");
    }
    // Whitespace is whitespace, a `+` is a sign, and words after the berth
    // are ignored.
    assert_eq!(
        read_piece(&rooms, b"  piece\t+1 2 3 0 hold 0 4 5 extra\r\n"),
        Some(Piece {
            id: 1,
            kind: Kind::RationBricks,
            variant: 3,
            gnawed: false,
            loc: Loc::Hold { room: CABIN, x: 4, y: 5 },
        })
    );
}

#[test]
fn the_rat_line_round_trips_exactly() {
    let rat = Rat {
        cell: (7, 4),
        prev_cell: (6, 4),
        moved_at: 123_456,
        next_move: 123_999,
        next_nibble: u64::MAX,
        chases: 2,
    };
    let text = line_of(|out| write_rat(out, Some(rat)));
    assert_eq!(text, format!("rat 7 4 6 4 123456 123999 {} 2\n", u64::MAX));
    assert_eq!(read_rat(text.as_bytes()), Some(Some(rat)));
    let none = line_of(|out| write_rat(out, None));
    assert_eq!(none, "rat -\n");
    assert_eq!(read_rat(none.as_bytes()), Some(None));
    for line in [
        "rat",
        "rat 22 4 6 4 1 2 3 0",
        "rat 7 13 6 4 1 2 3 0",
        "rat 7 4 6 4 1 2 3 3",
        "rat 7 4 6 4 1 2 3",
        "rats -",
    ] {
        assert_eq!(read_rat(line.as_bytes()), None, "{line:?}");
    }
}

#[test]
fn encounter_and_drone_lines_round_trip() {
    let enc = Encounter {
        kind: EncounterKind::Whale,
        start: 100,
        end: 7_300,
        opened: true,
        closed: false,
        used: true,
    };
    let text = line_of(|out| write_enc(out, Some(enc)));
    assert_eq!(text, "enc 4 100 7300 1 0 1\n");
    assert_eq!(read_enc(text.as_bytes()), Some(Some(enc)));
    assert_eq!(read_enc(b"enc -\n"), Some(None));
    assert_eq!(read_enc(b"enc 5 100 7300 1 0 1"), None, "no sixth kind");
    assert_eq!(read_enc(b"enc 4 100 100 1 0 1"), None, "an empty window");
    let drone = Drone {
        start: 10,
        end: 5_000,
        attached: false,
        gone: true,
        swats: 2,
    };
    let text = line_of(|out| write_drone(out, Some(drone)));
    assert_eq!(text, "drone 10 5000 0 1 2\n");
    assert_eq!(read_drone(text.as_bytes()), Some(Some(drone)));
    assert_eq!(read_drone(b"drone -"), Some(None));
    assert_eq!(read_drone(b"drone 10 5000 0 1 3"), None, "more swats than it takes");
    let none = line_of(|out| write_drone(out, None));
    assert_eq!(read_drone(none.as_bytes()), Some(None));
}
