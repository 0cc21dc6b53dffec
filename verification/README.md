# vmf_ledger

Reversible edits of Valve map files (`.vmf`). A tool edits a map, the ledger
works out what changed, stamps a marker into every entity it touched and writes
a journal beside the file; a later rollback replays that journal backwards and
touches nothing else.

The library under `src/` is written in Verus: every public function carries a
contract over a plain model of the map, and Verus proves the code against it.
Parsing and writing map files, reading and writing the journal file, and the
similarity scores of the matcher (floating point) live in `app/`, which calls
the library.

## Layout

- `model.rs`: the parts of a map the ledger reads and writes, as plain values.
- `kv.rs`, `text.rs`: ordered keyvalue lists and small text utilities.
- `ops.rs`: the operations a journal records.
- `matching.rs`: pairing the entities of two states of a map.
- `diff.rs`: the journal of an edit, from a pristine map, a working map and
  their matchings.
- `edit.rs`: a map under edit, and finishing it (markers, visgroup, journal).
- `marker.rs`: the registry of tools in `world`.
- `sidecar.rs`: the journal file's sections, one per tool.
- `rollback.rs`: replaying a journal backwards.
- `undo.rs`: what a rollback does to one entity's keyvalues.
- `roundtrip.rs`, `replay.rs`, `rebuild.rs`: why compiling a map and rolling it
  back gives the map back.
- `reorder.rs`: why the order in which a journal lists its key removals does
  not matter.
- `laws.rs`: the properties that span several operations.

## Laws proved in `laws.rs`, `reorder.rs` and `undo.rs`

- A finished edit, sealed and rolled back, gives back the pristine entity lists,
  the `world` keyvalues and the visgroup list (`law_compile_then_rollback`), also
  stated for the matchings the matcher reads off its states
  (`law_matched_compile_then_rollback`).
- A consistent matcher state whose pairs keep the entity order gives a matching
  of the kind that law asks for (`law_ordered_matching_is_proper`).
- Keyvalues rolled back with the operations of their diff come back in order
  (`law_keyvalues_roll_back`).
- A record reads back from its text (`law_record_reads_back`), every record a
  registry is read as can be written back (`law_parsed_records_readable`,
  `law_registry_records_readable`), and after a rollback the registry reads back
  without the tool (`law_registry_after_rollback`).
- An unedited map gives no operation and no marker (`law_unedited_map_no_ops`),
  and the matcher pairs each entity of an unedited list with unique ids with
  itself (`law_unedited_list_matches_itself`, `law_unedited_map_matched_no_ops`).
- A journal with its key removals listed in any other order rolls back the same
  way and finds the same collisions (`law_removals_in_any_order`,
  `law_rolled_in_any_order`).
- The registry reads back what was written (`law_registry_round_trip`); adding a
  record or a journal section leaves every other tool's alone
  (`law_upsert_then_find`, `law_section_upsert`, `law_remove_keeps_others`).
- A rollback leaves every unmarked entity as it is (`law_unmarked_untouched`).
- Tool names are made safe once and for all (`law_slug_is_safe`).
