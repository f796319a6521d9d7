# space_trucking

The deterministic core of Space Trucking, an ambient game about hauling
cargo across the solar system, written in Verus: every rule that decides
where cargo may stand, how the ship's rooms mate, what a station pays,
what happens aboard while the ship travels, and how a run is written to
and read back from a save document, each with a contract that Verus
proves.

## Layout

- `src/` is the verified library.
  - `text.rs`: the byte-level save grammar (words, decimal and hex
    numbers, lines) and its round-trip laws.
  - `telemetry.rs`: the telemetry buffer's refusals and the public state
    one frame of aggregation reads.
  - `sim/room.rs`: the ship as a graph of rooms on one integer lattice;
    attach, replay, re-seat and detach keep the non-overlap invariant.
  - `sim/cargo.rs`: pieces, berths, the stowage arbiter
    (`placement_check`, `dressing_check`) and the first-fit scans.
  - `sim/barter.rs`, `sim/deal.rs`: station values and the handshakes at
    a calling room's counter.
  - `sim/encounter.rs`, `sim/event.rs`, `sim/rats.rs`, `sim/underway.rs`:
    what happens over a leg and aboard while the ship goes about its
    business.
  - `sim/save.rs` and `sim/save/`: the save document. `lines.rs` holds
    one reader and one writer per line with their round-trip laws,
    `doc.rs` writes a whole document, `read.rs` reads one back (exact
    about the first faulty line, and proved to read back what was
    written, re-seating a room of a pre-`STV12` graph whose recorded
    mate is gone), and `migrate.rs` brings the boards of the five
    previous versions up to this build's rules without losing a piece.
  - `sim/run.rs`: a run's first moments, docked at the Guild with the
    starter cargo stowed and the Guild's market alongside, and a run
    taken up again from its save document.
  - `sim/voyage.rs`: one fixed step of a run under way or moored, the
    arrival a leg ends in, catching up on elapsed time, and the inner
    ring's transit papers.
- `tests/` runs the library on concrete values.
- `app/` is the unverified rim: the float geometry of pointer picking
  and the star map, sound cues, a run held with its generator (started,
  stepped, saved, restored with its elapsed time caught up, a carried
  piece let go, a deal struck at the trade room's counter), and the
  key-value storage of saves.

Randomness comes from `fastrand`: the library's one call into it stands
behind a small trusted item whose contract is stated in its doc comment.
Saves are kept with `quad-storage`, which only the unverified code in
`app/storage.rs` calls.
