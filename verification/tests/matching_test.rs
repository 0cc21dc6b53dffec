use indexmap::IndexMap;
use vmf_ledger::matching::{
    finish, free_groups, match_exact, pair_scored, Block, Confidence, MatchOptions, Matching, Pair, Scored,
};

fn block(name: &str, kvs: &[(&str, &str)]) -> Block {
    Block {
        name: name.to_string(),
        key_values: kvs.iter().map(|(k, v)| (k.to_string(), v.to_string())).collect::<IndexMap<_, _>>(),
    }
}

fn pair_of(m: &Matching, old: usize) -> Option<Pair> {
    m.pairs.iter().find(|p| p.old == old).cloned()
}

fn match_blocks(old: &Vec<Block>, new: &Vec<Block>, opts: &MatchOptions) -> Matching {
    finish(&match_exact(old, new, opts))
}

#[test]
fn marker_survives_every_other_key_changing() {
    let old = vec![block("entity", &[("_vlid", "7"), ("classname", "pe_door"), ("id", "1")])];
    let new = vec![block("entity", &[("_vlid", "7"), ("classname", "func_instance"), ("id", "990")])];
    let mut opts = MatchOptions::standard();
    opts.marker_key = Some("_vlid".to_string());

    let m = match_blocks(&old, &new, &opts);
    let p = pair_of(&m, 0).unwrap();
    assert_eq!(p.new, 0);
    assert_eq!(p.confidence, Confidence::Marker);
    assert_eq!(p.score, "1.00");
}

#[test]
fn id_pairs_when_no_marker_is_present() {
    let old = vec![block("entity", &[("id", "4"), ("classname", "logic_relay")])];
    let new = vec![block("entity", &[("id", "4"), ("classname", "logic_auto")])];

    let m = match_blocks(&old, &new, &MatchOptions::standard());
    assert_eq!(pair_of(&m, 0).unwrap().confidence, Confidence::Id);
}

#[test]
fn signature_pairs_after_hammer_renumbers_ids() {
    let old = vec![block("entity", &[("id", "4"), ("classname", "prop_static"), ("origin", "0 0 8")])];
    let new = vec![block("entity", &[("id", "81"), ("classname", "prop_static"), ("origin", "0 0 8")])];

    let m = match_blocks(&old, &new, &MatchOptions::standard());
    assert_eq!(pair_of(&m, 0).unwrap().confidence, Confidence::Signature);
}

#[test]
fn ambiguous_token_is_deferred_instead_of_guessed() {
    let old = vec![
        block("entity", &[("id", "4"), ("origin", "0 0 0")]),
        block("entity", &[("id", "4"), ("origin", "64 0 0")]),
    ];
    let new = vec![
        block("entity", &[("id", "4"), ("origin", "64 0 0")]),
        block("entity", &[("id", "4"), ("origin", "0 0 0")]),
    ];

    let m = match_blocks(&old, &new, &MatchOptions::standard());
    assert!(m.pairs.iter().all(|p| p.confidence != Confidence::Id));
    // The signature made of the origin tells them apart.
    assert_eq!(pair_of(&m, 0).unwrap().new, 1);
    assert_eq!(pair_of(&m, 1).unwrap().new, 0);
}

#[test]
fn blocks_of_different_kinds_never_pair() {
    let old = vec![block("entity", &[("id", "1")])];
    let new = vec![block("solid", &[("id", "1")])];

    let m = match_blocks(&old, &new, &MatchOptions::standard());
    assert!(m.pairs.is_empty());
    assert_eq!(m.only_old, [0]);
    assert_eq!(m.only_new, [0]);
}

#[test]
fn additions_and_removals_are_reported() {
    let old = vec![
        block("entity", &[("id", "1"), ("classname", "a"), ("origin", "0 0 0")]),
        block("entity", &[("id", "2"), ("classname", "gone"), ("origin", "9 9 9")]),
    ];
    let new = vec![
        block("entity", &[("id", "1"), ("classname", "a"), ("origin", "0 0 0")]),
        block("entity", &[("id", "3"), ("classname", "fresh"), ("origin", "5 5 5")]),
    ];

    let m = match_blocks(&old, &new, &MatchOptions::standard());
    assert_eq!(m.pairs.len(), 1);
    assert_eq!(m.only_old, [1]);
    assert_eq!(m.only_new, [1]);
}

#[test]
fn similarity_candidates_are_taken_best_first_and_only_once() {
    let old = vec![block("side", &[("plane", "a")]), block("side", &[("plane", "b")])];
    let new = vec![block("side", &[("plane", "b")]), block("side", &[("plane", "a")])];
    let mut state = match_exact(&old, &new, &MatchOptions::standard());
    let cands = vec![
        Scored { old: 0, new: 1, score: "0.90".to_string() },
        Scored { old: 1, new: 1, score: "0.80".to_string() },
        Scored { old: 1, new: 0, score: "0.70".to_string() },
    ];
    pair_scored(&mut state, &old, &new, &cands);
    let m = finish(&state);
    assert_eq!(m.pairs.len(), 2);
    let p0 = pair_of(&m, 0).unwrap();
    assert_eq!((p0.new, p0.confidence, p0.score.as_str()), (1, Confidence::Similarity, "0.90"));
    let p1 = pair_of(&m, 1).unwrap();
    assert_eq!((p1.new, p1.score.as_str()), (0, "0.70"));
    assert!(m.only_old.is_empty() && m.only_new.is_empty());
}

#[test]
fn a_candidate_across_kinds_is_skipped() {
    let old = vec![block("entity", &[("a", "1")])];
    let new = vec![block("solid", &[("a", "1")])];
    let mut state = match_exact(&old, &new, &MatchOptions::standard());
    pair_scored(&mut state, &old, &new, &vec![Scored { old: 0, new: 0, score: "1.00".to_string() }]);
    let m = finish(&state);
    assert!(m.pairs.is_empty());
}

#[test]
fn free_blocks_are_grouped_by_kind() {
    let old = vec![
        block("entity", &[("id", "1"), ("classname", "light")]),
        block("entity", &[("id", "2"), ("classname", "info_target")]),
        block("brush", &[("id", "3")]),
        block("entity", &[("id", "4"), ("classname", "env_sprite")]),
    ];
    let new = vec![
        block("entity", &[("id", "1"), ("classname", "light")]),
        block("decal", &[("id", "9")]),
        block("entity", &[("id", "7"), ("classname", "env_fog")]),
        block("brush", &[("id", "8")]),
    ];
    let state = match_exact(&old, &new, &MatchOptions::standard());
    let groups = free_groups(&state, &old, &new);
    assert_eq!(groups.len(), 3);
    let entity = groups.iter().find(|g| g.name == "entity").unwrap();
    assert_eq!(entity.olds, vec![1, 3]);
    assert_eq!(entity.news, vec![2]);
    let brush = groups.iter().find(|g| g.name == "brush").unwrap();
    assert_eq!(brush.olds, vec![2]);
    assert_eq!(brush.news, vec![3]);
    let decal = groups.iter().find(|g| g.name == "decal").unwrap();
    assert!(decal.olds.is_empty());
    assert_eq!(decal.news, vec![1]);
}
