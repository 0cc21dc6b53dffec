use indexmap::IndexMap;
use source_vmf::prelude::{Entity, VmfFile};
use vmf_ledger::edit::{seal, TrackedVmf};
use vmf_ledger::matching::{blocks_of, finish, match_exact, pair_scored, MatchOptions, Matching, Scored};
use vmf_ledger::model::{Connection, EntityModel, MapModel};
use vmf_ledger::ops::as_written;
use vmf_ledger::rollback::mark_of;
use vmf_ledger::sidecar::{fnv1a, sidecar_for_write, Journal, LegacyJournal, Sidecar};
use vmf_ledger::{is_marked, restore, LedgerError, LedgerOptions, RestoreOptions};

const TOOL: &str = "test-tool";
const VERSION: &str = "0.1.0";

/// The world of the fixture: one brush, so a retexture is something to notice.
const WORLD: &str = r#"
versioninfo
{
	"editorversion" "400"
	"mapversion" "1"
}
world
{
	"id" "1"
	"classname" "worldspawn"
	solid
	{
		"id" "2"
		side
		{
			"id" "3"
			"plane" "(0 0 0) (1 0 0) (0 1 0)"
			"material" "DEV/DEV_MEASUREGENERIC01B"
		}
	}
}
"#;

fn kvs(pairs: &[(&str, &str)]) -> IndexMap<String, String> {
    pairs.iter().map(|(k, v)| (k.to_string(), v.to_string())).collect()
}

fn entity(pairs: &[(&str, &str)]) -> EntityModel {
    EntityModel {
        key_values: kvs(pairs),
        connections: None,
        visgroup_ids: Vec::new(),
        body: Entity::default(),
    }
}

fn conn(output: &str, target: &str, input: &str) -> Connection {
    Connection {
        output: output.to_string(),
        target: target.to_string(),
        input: input.to_string(),
        params: String::new(),
        delay: "0".to_string(),
        fire_limit: -1,
    }
}

/// Two entities and a brush, enough to tell recorded changes from the rest.
fn map() -> MapModel {
    let mut rest = VmfFile::parse(WORLD).expect("fixture parses");
    let world_key_values = std::mem::take(&mut rest.world.key_values);
    let solid_visgroups = rest.world.solids.iter().map(|_| Vec::new()).collect();
    let mut door = entity(&[
        ("id", "10"),
        ("classname", "pe_door"),
        ("targetname", "door_a"),
        ("open_time", "2.5"),
    ]);
    door.connections = Some(vec![conn("OnOpen", "relay_a", "Trigger")]);
    let relay = entity(&[("id", "11"), ("classname", "logic_relay"), ("targetname", "relay_a")]);
    MapModel {
        world_key_values,
        entities: vec![door, relay],
        hiddens: Vec::new(),
        solid_visgroups,
        rest,
    }
}

fn opts() -> LedgerOptions {
    LedgerOptions::new(TOOL, VERSION.to_string())
}

fn beta() -> LedgerOptions {
    LedgerOptions::new("other-tool", "2.0".to_string())
}

/// The text a journal is fingerprinted over.
fn json(journal: &Journal) -> String {
    format!("{journal:?}")
}

fn exact(old: &Vec<EntityModel>, new: &Vec<EntityModel>) -> Matching {
    let state = match_exact(&blocks_of(old), &blocks_of(new), &MatchOptions::standard());
    finish(&state)
}

fn matchings(edit: &TrackedVmf) -> (Matching, Matching) {
    let (o, w) = (edit.original(), edit.working());
    (exact(&o.entities, &w.entities), exact(&o.hiddens, &w.hiddens))
}

/// Runs a tool over the map and returns the compiled map plus its journal.
fn compile(change: impl FnOnce(&mut MapModel)) -> (MapModel, Journal) {
    compile_from(map(), &opts(), change)
}

fn compile_from(map: MapModel, opts: &LedgerOptions, change: impl FnOnce(&mut MapModel)) -> (MapModel, Journal) {
    let mut edit = TrackedVmf::new(map);
    change(edit.split().1);
    let (me, mh) = matchings(&edit);
    let (mut compiled, journal) = edit.finish(opts, &me, &mh).expect("only recorded changes");
    seal(&mut compiled, &journal, opts, &json(&journal));
    (compiled, journal)
}

fn restore_as(compiled: &mut MapModel, journal: &Journal, opts: &LedgerOptions, force: bool) -> Result<(), LedgerError> {
    let fingerprint = journal.fingerprint_with(&json(journal));
    restore(compiled, journal, opts, &RestoreOptions { force }, &fingerprint)
}

fn rollback(compiled: &mut MapModel, journal: &Journal) -> Result<(), LedgerError> {
    restore_as(compiled, journal, &opts(), false)
}

/// Compares everything the map holds.
fn text(map: &MapModel) -> String {
    format!("{map:?}")
}

fn keys(e: &EntityModel) -> Vec<&str> {
    e.key_values.keys().map(String::as_str).collect()
}

fn set(e: &mut EntityModel, k: &str, v: &str) {
    e.key_values.insert(k.to_string(), v.to_string());
}

fn classname(e: &EntityModel) -> Option<&str> {
    e.key_values.get("classname").map(String::as_str)
}

/// What saving and reopening does to connections: one line per output.
fn reopen(map: &mut MapModel) {
    for e in map.entities.iter_mut().chain(map.hiddens.iter_mut()) {
        e.connections = as_written(e.connections.as_ref());
    }
}

// --- the round trip ------------------------------------------------------

#[test]
fn a_compiled_map_rolls_back_to_the_original() {
    let (mut compiled, journal) = compile(|m| {
        let ent = &mut m.entities[0];
        set(ent, "classname", "func_instance");
        set(ent, "file", "instances/door.vmf");
        ent.key_values.shift_remove("open_time");
    });

    assert_ne!(text(&compiled), text(&map()), "the tool did change something");
    rollback(&mut compiled, &journal).unwrap();
    assert_eq!(text(&compiled), text(&map()));
}

#[test]
fn a_removed_key_comes_back_in_its_original_position() {
    let (mut compiled, journal) = compile(|m| {
        m.entities[0].key_values.shift_remove("targetname");
    });
    rollback(&mut compiled, &journal).unwrap();
    assert_eq!(keys(&compiled.entities[0]), ["id", "classname", "targetname", "open_time"]);
}

#[test]
fn connections_roll_back() {
    let (mut compiled, journal) = compile(|m| {
        m.entities[0].connections = Some(vec![conn("OnClose", "relay_a", "Kill")]);
    });
    rollback(&mut compiled, &journal).unwrap();
    assert_eq!(text(&compiled), text(&map()));
}

#[test]
fn an_entity_the_tool_created_is_removed_again() {
    let (mut compiled, journal) = compile(|m| {
        m.entities.push(entity(&[("classname", "info_target"), ("id", "99")]));
    });
    assert_eq!(compiled.entities.len(), 3);

    rollback(&mut compiled, &journal).unwrap();
    assert_eq!(text(&compiled), text(&map()));
}

#[test]
fn an_entity_the_tool_deleted_comes_back_in_place() {
    let (mut compiled, journal) = compile(|m| {
        m.entities.remove(0);
    });
    assert_eq!(compiled.entities.len(), 1);

    rollback(&mut compiled, &journal).unwrap();
    assert_eq!(text(&compiled), text(&map()));
}

#[test]
fn an_untouched_map_gets_no_journal_and_no_marker() {
    let (compiled, journal) = compile(|_| {});
    assert!(journal.is_empty());
    assert!(!is_marked(&compiled, &opts()));
    assert_eq!(text(&compiled), text(&map()));
}

// --- living with a mapper ------------------------------------------------

#[test]
fn edits_outside_the_tools_changes_survive_the_rollback() {
    let (mut compiled, journal) = compile(|m| {
        set(&mut m.entities[0], "classname", "func_instance");
    });

    compiled.rest.world.solids[0].sides[0].material = "DEV/DEV_BLENDMEASURE".into();
    set(&mut compiled.entities[1], "spawnflags", "1");
    compiled.entities.push(entity(&[("classname", "light"), ("id", "42")]));

    rollback(&mut compiled, &journal).unwrap();

    assert_eq!(
        compiled.rest.world.solids[0].sides[0].material, "DEV/DEV_BLENDMEASURE",
        "a retexture the tool never saw must not be undone"
    );
    assert_eq!(compiled.entities[1].key_values.get("spawnflags").unwrap(), "1");
    assert!(compiled.entities.iter().any(|e| classname(e) == Some("light")));
    assert_eq!(classname(&compiled.entities[0]), Some("pe_door"));
}

#[test]
fn hammer_renumbering_ids_does_not_break_the_rollback() {
    let (mut compiled, journal) = compile(|m| {
        set(&mut m.entities[0], "classname", "func_instance");
    });
    for (n, ent) in compiled.entities.iter_mut().enumerate() {
        set(ent, "id", &(500 + n).to_string());
    }

    rollback(&mut compiled, &journal).unwrap();
    assert_eq!(classname(&compiled.entities[0]), Some("pe_door"));
}

// --- refusing to guess ---------------------------------------------------

#[test]
fn an_edit_to_what_the_tool_wrote_stops_the_rollback() {
    let (mut compiled, journal) = compile(|m| {
        set(&mut m.entities[0], "classname", "func_instance");
    });
    set(&mut compiled.entities[0], "classname", "func_movelinear");

    let err = rollback(&mut compiled, &journal).unwrap_err();
    match err {
        LedgerError::Collisions(found) => {
            assert_eq!(found.len(), 1);
            assert_eq!(found[0].found, "func_movelinear");
            assert_eq!(found[0].expected, "func_instance");
        },
        other => panic!("{other:?}"),
    }
    assert_eq!(
        classname(&compiled.entities[0]),
        Some("func_movelinear"),
        "a refused rollback must not have written anything"
    );
}

#[test]
fn force_rolls_back_over_the_conflicting_edit_only() {
    let (mut compiled, journal) = compile(|m| {
        set(&mut m.entities[0], "classname", "func_instance");
    });
    set(&mut compiled.entities[0], "classname", "func_movelinear");
    set(&mut compiled.entities[0], "rendercolor", "255 0 0");

    restore_as(&mut compiled, &journal, &opts(), true).unwrap();

    assert_eq!(classname(&compiled.entities[0]), Some("pe_door"));
    assert_eq!(
        compiled.entities[0].key_values.get("rendercolor").unwrap(),
        "255 0 0",
        "force discards the conflicting edit, not every edit"
    );
}

#[test]
fn a_duplicated_entity_is_refused_rather_than_guessed() {
    let (mut compiled, journal) = compile(|m| {
        set(&mut m.entities[0], "classname", "func_instance");
    });
    let copy = compiled.entities[0].duplicate();
    compiled.entities.push(copy);

    assert!(matches!(rollback(&mut compiled, &journal).unwrap_err(), LedgerError::DuplicateMarker(_)));
}

#[test]
fn a_journal_from_another_run_is_refused() {
    let (mut compiled, _) = compile(|m| {
        set(&mut m.entities[0], "classname", "func_instance");
    });
    let (_, other) = compile(|m| {
        set(&mut m.entities[1], "targetname", "relay_b");
    });

    assert!(matches!(rollback(&mut compiled, &other).unwrap_err(), LedgerError::Mismatched { .. }));
}

#[test]
fn an_unmarked_map_has_nothing_to_roll_back() {
    let mut clean = map();
    let (_, journal) = compile(|m| {
        set(&mut m.entities[0], "classname", "func_instance");
    });

    assert!(matches!(rollback(&mut clean, &journal).unwrap_err(), LedgerError::NotMarked(_)));
}

#[test]
fn changes_the_ledger_cannot_undo_block_the_export() {
    let mut edit = TrackedVmf::new(map());
    edit.split().1.rest.world.solids[0].sides[0].material = "DEV/DEV_BLENDMEASURE".into();
    let (me, mh) = matchings(&edit);

    match edit.finish(&opts(), &me, &mh).unwrap_err() {
        LedgerError::Untracked(notes) => assert_eq!(notes, ["world changed"]),
        other => panic!("{other:?}"),
    }
}

#[test]
fn the_original_stays_available_while_the_map_is_edited() {
    let mut edit = TrackedVmf::new(map());
    set(&mut edit.split().1.entities[0], "classname", "func_instance");

    assert_eq!(classname(&edit.original().entities[0]), Some("pe_door"));
    assert_eq!(classname(&edit.working().entities[0]), Some("func_instance"));
}

#[test]
fn markers_reach_the_saved_file() {
    let (compiled, journal) = compile(|m| {
        set(&mut m.entities[0], "classname", "func_instance");
    });

    assert_eq!(compiled.entities[0].key_values.get("_vl_test-tool").unwrap(), "1");
    assert_eq!(
        compiled.world_key_values.get("vmf_ledger").unwrap(),
        &format!("{TOOL} {VERSION} {}", journal.fingerprint_with(&json(&journal)))
    );

    let mut reopened = compiled;
    reopen(&mut reopened);
    rollback(&mut reopened, &journal).unwrap();
    assert_eq!(text(&reopened), text(&map()));
}

#[test]
fn compiling_an_already_compiled_map_starts_from_the_original() {
    let pristine = text(&map());
    let (mut compiled, journal) = compile(|m| {
        set(&mut m.entities[0], "classname", "func_instance");
    });

    // The mapper reopens it and changes something of their own.
    set(&mut compiled.entities[1], "targetname", "relay_renamed");

    // Second compile: the map is marked, so it is rewound first.
    assert!(mark_of(&compiled, &opts()).is_some());
    rollback(&mut compiled, &journal).expect("rollback succeeds");

    assert_eq!(classname(&compiled.entities[0]), Some("pe_door"), "the first run's own change is gone");
    assert_eq!(
        compiled.entities[1].key_values.get("targetname").unwrap(),
        "relay_renamed",
        "the mapper's change is not"
    );
    assert!(!is_marked(&compiled, &opts()));

    set(&mut compiled.entities[1], "targetname", "relay_a");
    assert_eq!(text(&compiled), pristine);
}

#[test]
fn a_map_this_tool_never_touched_is_left_alone() {
    assert!(mark_of(&map(), &opts()).is_none(), "no marker, so nothing to do and no journal needed");
}

#[test]
fn interleaved_outputs_survive_the_file_round_trip() {
    let (mut compiled, journal) = compile(|m| {
        m.entities[1].connections = Some(vec![
            conn("OnTrigger", "a", "Open"),
            conn("OnSpawn", "b", "Kill"),
            conn("OnTrigger", "c", "Close"),
        ]);
    });

    reopen(&mut compiled);
    rollback(&mut compiled, &journal).unwrap();
    assert_eq!(text(&compiled), text(&map()));
}

#[test]
fn keys_come_back_in_order_when_the_tool_also_added_some() {
    let (mut compiled, journal) = compile(|m| {
        let ent = &mut m.entities[0];
        ent.key_values.shift_remove("classname");
        ent.key_values.shift_remove("open_time");
        ent.key_values.shift_insert(0, "file".into(), "a.vmf".into());
        set(ent, "prev_classname", "pe_door");
        set(ent, "spawnflags", "1");
    });

    reopen(&mut compiled);
    rollback(&mut compiled, &journal).unwrap();
    assert_eq!(keys(&compiled.entities[0]), ["id", "classname", "targetname", "open_time"]);
    assert_eq!(text(&compiled), text(&map()));
}

#[test]
fn entities_sharing_an_id_still_roll_back() {
    let mut original = map();
    let mut twin = original.entities[0].duplicate();
    set(&mut twin, "id", "10");
    set(&mut twin, "targetname", "door_b");
    set(&mut twin, "origin", "512 0 0");
    original.entities.push(twin);
    let pristine = text(&original);

    let (mut compiled, journal) = compile_from(original, &opts(), |m| {
        for ent in m.entities.iter_mut() {
            if classname(ent) == Some("pe_door") {
                let file = format!("i/{}.vmf", ent.key_values.get("targetname").map(String::as_str).unwrap_or("x"));
                set(ent, "classname", "func_instance");
                set(ent, "file", &file);
            }
        }
    });
    reopen(&mut compiled);
    rollback(&mut compiled, &journal).unwrap();

    assert_eq!(text(&compiled), pristine);
}

#[test]
fn a_pair_matched_only_by_similarity_blocks_the_export() {
    let faceless = |mark: &str| {
        entity(&[("shared_a", "1"), ("shared_b", "2"), ("shared_c", "3"), ("shared_d", "4"), ("own", mark)])
    };
    let mut original = map();
    original.entities = vec![faceless("first")];

    let mut edit = TrackedVmf::new(original);
    set(&mut edit.split().1.entities[0], "shared_a", "modified");

    let (o, w) = (blocks_of(&edit.original().entities), blocks_of(&edit.working().entities));
    let mut state = match_exact(&o, &w, &MatchOptions::standard());
    // Neither an id nor a signature key: only the similarity stage can pair
    // them, and it did.
    pair_scored(&mut state, &o, &w, &vec![Scored { old: 0, new: 0, score: "0.62".to_string() }]);
    let me = finish(&state);
    let mh = exact(&Vec::new(), &Vec::new());

    match edit.finish(&opts(), &me, &mh).unwrap_err() {
        LedgerError::Untracked(notes) => {
            assert!(notes.iter().any(|n| n.contains("similarity")), "{notes:?}");
            assert_eq!(notes, ["entity 0: matched only by similarity (0.62), too weak to roll back"]);
        },
        other => panic!("{other:?}"),
    }
}

// --- more than one tool on one map ---------------------------------------

/// Compiles the map with both tools in turn, the second one working off what
/// the first one wrote.
fn compile_with_both() -> (MapModel, Journal, Journal) {
    let (compiled, first) = compile_from(map(), &opts(), |m| {
        set(&mut m.entities[0], "classname", "func_instance");
    });
    let (compiled, second) = compile_from(compiled, &beta(), |m| {
        set(&mut m.entities[1], "targetname", "relay_renamed");
    });
    (compiled, first, second)
}

#[test]
fn two_tools_share_one_journal_without_erasing_each_other() {
    let (both, first, second) = compile_with_both();
    let (fp1, fp2) = (first.fingerprint_with(&json(&first)), second.fingerprint_with(&json(&second)));

    let mut file = Sidecar::empty();
    file.upsert(first);
    file.upsert(second);
    assert_eq!(file.tools.len(), 2, "both sections are in the one journal file");
    let got = file.get(TOOL).unwrap();
    assert_eq!(
        got.fingerprint_with(&json(got)),
        fp1,
        "the second tool writing itself in did not disturb the first section"
    );
    let got = file.get("other-tool").unwrap();
    assert_eq!(got.fingerprint_with(&json(got)), fp2);

    assert!(is_marked(&both, &opts()));
    assert!(is_marked(&both, &beta()));
    assert!(both.entities[0].key_values.contains_key("_vl_test-tool"));
    assert!(both.entities[1].key_values.contains_key("_vl_other-tool"));
}

#[test]
fn rolling_one_tool_back_leaves_the_other_compiled() {
    let (mut both, first, second) = compile_with_both();

    restore_as(&mut both, &first, &opts(), false).unwrap();

    assert_eq!(classname(&both.entities[0]), Some("pe_door"), "the first tool's change is gone");
    assert_eq!(
        both.entities[1].key_values.get("targetname").unwrap(),
        "relay_renamed",
        "the second tool's is not"
    );
    assert!(!is_marked(&both, &opts()));
    assert!(is_marked(&both, &beta()));
    assert!(both.entities[1].key_values.contains_key("_vl_other-tool"), "and neither is its marker");

    restore_as(&mut both, &second, &beta(), false).unwrap();
    assert_eq!(text(&both), text(&map()));
}

#[test]
fn a_journal_that_does_not_read_is_never_overwritten() {
    let unreadable = Err(LedgerError::SidecarFormat {
        path: "map.vdif".to_string(),
        reason: "expected value at line 1 column 1".to_string(),
    });
    let err = sidecar_for_write(unreadable, false, "map.vdif".to_string(), "not a journal".to_string()).unwrap_err();
    match err {
        LedgerError::SidecarClobber { path, reason } => {
            assert_eq!(path, "map.vdif");
            assert_eq!(reason, "not a journal");
        },
        other => panic!("{other:?}"),
    }
    let missing = Err(LedgerError::SidecarIo { path: "map.vdif".to_string(), reason: "gone".to_string() });
    let fresh = sidecar_for_write(missing, true, "map.vdif".to_string(), "gone".to_string()).unwrap();
    assert_eq!(fresh.version, 2);
    assert!(fresh.tools.is_empty());
}

#[test]
fn a_journal_from_the_single_tool_format_still_rolls_back() {
    fn hash(data: &str) -> u64 {
        let mut hash: u64 = 0xcbf2_9ce4_8422_2325;
        for byte in data.as_bytes() {
            hash ^= *byte as u64;
            hash = hash.wrapping_mul(0x0000_0100_0000_01b3);
        }
        hash
    }

    let legacy = opts().with_marker_key("_vlid".to_string());
    let (compiled, journal) = compile_from(map(), &legacy, |m| {
        let ent = &mut m.entities[0];
        set(ent, "classname", "func_instance");
        ent.key_values.shift_remove("open_time");
    });

    let text_v1 = format!("{{\"version\": 1, \"tool\": \"test-tool 0.1.0\", \"ops\": \"{:?}\"}}", journal.ops);
    let v1 = LegacyJournal {
        version: 1,
        tool: "test-tool 0.1.0".to_string(),
        marker_key: "_vlid".to_string(),
        ops: journal.ops,
    };

    let mut old_map = compiled;
    old_map
        .world_key_values
        .insert("vmf_ledger".to_string(), format!("test-tool 0.1.0 {:016x}", hash(&text_v1)));

    let lifted = v1.lift(&text_v1);
    assert_eq!(lifted.name, TOOL);
    assert_eq!(lifted.marker_key, "_vlid", "the old key comes from the file");
    assert_eq!(lifted.version, "0.1.0");

    restore(&mut old_map, &lifted, &opts(), &RestoreOptions::default(), &lifted.fingerprint_with("ignored"))
        .expect("an old journal still undoes an old compile");
    assert_eq!(text(&old_map), text(&map()));
}

// --- visgroups -----------------------------------------------------------

#[test]
fn entities_the_tool_creates_land_in_its_visgroup() {
    let opts = opts().with_visgroup("generated".to_string());
    let (compiled, journal) = compile_from(map(), &opts, |m| {
        m.entities.push(entity(&[("classname", "info_target"), ("id", "99")]));
    });

    let group = compiled.rest.visgroups.find_by_name("generated").expect("the group was made");
    let members: Vec<&EntityModel> =
        compiled.entities.iter().filter(|e| e.visgroup_ids.contains(&group.id)).collect();

    assert_eq!(members.len(), 1, "only what the tool made");
    assert_eq!(classname(members[0]), Some("info_target"));
    assert!(!journal.visgroups.is_empty(), "and it is undoable");
}

#[test]
fn the_visgroup_goes_away_with_the_entities_it_held() {
    let opts = opts().with_visgroup("generated".to_string());
    let (mut compiled, journal) = compile_from(map(), &opts, |m| {
        m.entities.push(entity(&[("classname", "info_target"), ("id", "99")]));
    });

    restore_as(&mut compiled, &journal, &opts, false).unwrap();

    assert!(compiled.rest.visgroups.find_by_name("generated").is_none());
    assert_eq!(text(&compiled), text(&map()));
}

#[test]
fn a_visgroup_the_mapper_moved_into_outlives_the_rollback() {
    let opts = opts().with_visgroup("generated".to_string());
    let (mut compiled, journal) = compile_from(map(), &opts, |m| {
        m.entities.push(entity(&[("classname", "info_target"), ("id", "99")]));
    });
    let id = compiled.rest.visgroups.find_by_name("generated").unwrap().id;
    compiled.entities[1].visgroup_ids.push(id);

    restore_as(&mut compiled, &journal, &opts, false).unwrap();

    assert!(compiled.rest.visgroups.find_by_name("generated").is_some(), "somebody else is still filed under it");
    assert!(compiled.entities[1].visgroup_ids.contains(&id));
}

#[test]
fn insertions_do_not_depend_on_the_order_ops_appear_in() {
    let (mut compiled, journal) = compile(|m| {
        let ent = &mut m.entities[0];
        ent.key_values.shift_remove("classname");
        ent.key_values.shift_remove("targetname");
        ent.key_values.shift_remove("open_time");
        set(ent, "file", "a.vmf");
    });

    let marker_key = journal.marker_key.clone();
    let mut ops = journal.ops;
    ops.reverse();
    let shuffled = Journal::new(TOOL.to_string(), VERSION.to_string(), marker_key, ops, Vec::new());
    reopen(&mut compiled);
    compiled.world_key_values.insert(
        "vmf_ledger".to_string(),
        format!("{TOOL} {VERSION} {}", shuffled.fingerprint_with(&json(&shuffled))),
    );

    rollback(&mut compiled, &shuffled).unwrap();
    assert_eq!(keys(&compiled.entities[0]), ["id", "classname", "targetname", "open_time"]);
}

// --- pieces --------------------------------------------------------------

#[test]
fn the_fingerprint_is_fnv1a_in_sixteen_hex_digits() {
    assert_eq!(fnv1a(""), 0xcbf2_9ce4_8422_2325);
    assert_eq!(fnv1a("a"), 0xaf63_dc4c_8601_ec8c);
    let journal = Journal::new("t".to_string(), "1".to_string(), "_vl_t".to_string(), Vec::new(), Vec::new());
    assert_eq!(journal.fingerprint_with("a"), "af63dc4c8601ec8c");
    assert_eq!(journal.fingerprint_with(""), "cbf29ce484222325");
}
