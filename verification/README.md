# rmmodify

A save and database editor library for RPG Maker (XP, VX, VX Ace, 2000, 2003)
and Wolf RPG Editor games, written in Verus. Its core rule is that a file that
is read and written back without edits comes out byte for byte the same.

## Layout

- `src/marshal/`: Ruby Marshal 4.8 streams. `load` reads a stream into an
  arena tree, `dump` writes it back; `stream` holds the specification of both,
  `roundtrip` proves that writing what was read gives the stream back (one
  stream, and files of several streams), `show` lists a tree one node per line,
  `rgss3a` reads RGSS archives.
- `src/save.rs`: RGSS saves (layout detection, switches, variables, gold,
  inventory, party, actors) with read-after-write laws.
- `src/lcf.rs`, `src/lcf_doc.rs`, `src/save_lsd.rs`: the LCF format of
  RPG Maker 2000/2003, its databases and saves.
- `src/db.rs`: engine detection and the name tables of a game's database.
- `src/wolf/`: Wolf RPG Editor saves (encryption, segment readers with their
  field layouts, writing back), variable databases, DXLib archives.
- `src/text.rs`: text conversions through std and encoding_rs.
- `app/`: the command-line tools: file reading and writing, backups, printing.
- `tests/`: tests of the library on concrete inputs.
