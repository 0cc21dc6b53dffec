//! What single operations promise, stated over their inputs and results: the
//! guards a rollback keeps, the changes an edit may not make unnoticed, where a
//! tool's visgroup comes from, how an old journal names its tool, and what a
//! block's signature is made of.

use vstd::prelude::*;

use crate::diff::{
    body_notes, bucket_diff, diff_added, diff_pairs, diff_removed, editors_differ, empty_diff, entity_note,
    extras_differ, map_diff, note_if, pairs_of, positions, section_notes, solids_differ, DiffView,
};
use crate::edit::finished;
use crate::kv::{lookup, Entries};
use crate::text::{joined, lemma_split_concat, lemma_split_single, split_on};
use crate::matching::{signature_of, signature_parts, Matching};
use crate::model::{EntityView, MapView};
use crate::ops::{written, Bucket, OpView};
use crate::rollback::{absent, collision_of, collisions_in, entity_at, located};
use crate::roundtrip::{list_of, matching_for};
use crate::sidecar::{last_space, legacy_name, legacy_version};

verus! {

// ---------------------------------------------------------------------------
// A rollback refuses to write over an edit.
// ---------------------------------------------------------------------------

/// An operation of the journal no longer finds what the tool left: the entity
/// it names is gone, or holds another value under a key the tool set or added
/// (or lacks that key, unless the tool's value reads as the absence marker),
/// or holds a key the tool removed, or holds other connections than the tool
/// wrote. An entity the tool deleted is not looked for.
pub open spec fn overwritten(map: MapView, ix: Seq<(Seq<char>, Bucket, int)>, op: OpView) -> bool {
    !(op is RemoveEntity) && match located(ix, op.at()) {
        None => true,
        Some(p) => match entity_at(map, p.0, p.1) {
            None => true,
            Some(e) => match op {
                OpView::Change { key, new, .. } => match lookup(e.key_values, key) {
                    Some(v) => v != new,
                    None => new != absent(),
                },
                OpView::Add { key, new, .. } => match lookup(e.key_values, key) {
                    Some(v) => v != new,
                    None => new != absent(),
                },
                OpView::Remove { key, .. } => lookup(e.key_values, key) is Some,
                OpView::Connections { new, .. } => written(e.connections) != new,
                _ => false,
            },
        },
    }
}

/// Where what the tool wrote has since been edited (a keyvalue it changed,
/// added or removed, the connections it wrote, or the entity itself deleted),
/// the rollback finds a collision, so that without `force` it refuses and
/// leaves the map as it was; and it finds one only there.
pub proof fn law_edit_over_tool_collides(map: MapView, ix: Seq<(Seq<char>, Bucket, int)>, ops: Seq<OpView>)
    ensures
        forall|k: int|
            0 <= k < ops.len() ==> ((#[trigger] collision_of(map, ix, ops[k])).len() > 0 <==> overwritten(
                map,
                ix,
                ops[k],
            )),
        collisions_in(map, ix, ops).len() > 0 <==> exists|k: int| 0 <= k < ops.len() && #[trigger] overwritten(map, ix, ops[k]),
{
    assert forall|k: int| 0 <= k < ops.len() implies ((#[trigger] collision_of(map, ix, ops[k])).len() > 0
        <==> overwritten(map, ix, ops[k])) by {
        lemma_collision_iff(map, ix, ops[k]);
    }
    crate::reorder::lemma_collisions_each(map, ix, ops);
    if collisions_in(map, ix, ops).len() > 0 {
        let k = choose|k: int| 0 <= k < ops.len() && (#[trigger] collision_of(map, ix, ops[k])).len() != 0;
        assert(overwritten(map, ix, ops[k]));
    }
    if exists|k: int| 0 <= k < ops.len() && #[trigger] overwritten(map, ix, ops[k]) {
        let k = choose|k: int| 0 <= k < ops.len() && #[trigger] overwritten(map, ix, ops[k]);
        assert(collision_of(map, ix, ops[k]).len() > 0);
    }
}

proof fn lemma_collision_iff(map: MapView, ix: Seq<(Seq<char>, Bucket, int)>, op: OpView)
    ensures
        collision_of(map, ix, op).len() > 0 <==> overwritten(map, ix, op),
{
}

// ---------------------------------------------------------------------------
// Changes no operation can undo are never let through.
// ---------------------------------------------------------------------------

/// `longer` begins with `shorter`.
spec fn begins_with(longer: Seq<Seq<char>>, shorter: Seq<Seq<char>>) -> bool {
    shorter.len() <= longer.len() && forall|i: int| 0 <= i < shorter.len() ==> #[trigger] longer[i] == shorter[i]
}

/// Entities created or deleted add no notes.
proof fn lemma_added_removed_keep_notes(acc: (DiffView, nat), bucket: Bucket, olds: Seq<EntityView>, m: Matching)
    ensures
        ({
            let d2 = diff_added(acc, bucket, positions(m.only_new@), m.only_new@.len() as int);
            diff_removed(d2, bucket, olds, positions(m.only_old@), m.only_old@.len() as int).0.untracked
                == acc.0.untracked
        }),
{
    lemma_added_keeps_notes(acc, bucket, positions(m.only_new@), m.only_new@.len() as int);
    let d2 = diff_added(acc, bucket, positions(m.only_new@), m.only_new@.len() as int);
    lemma_removed_keeps_notes(d2, bucket, olds, positions(m.only_old@), m.only_old@.len() as int);
}

proof fn lemma_added_keeps_notes(acc: (DiffView, nat), bucket: Bucket, only_new: Seq<int>, n: int)
    ensures
        diff_added(acc, bucket, only_new, n).0.untracked == acc.0.untracked,
    decreases n,
{
    if n > 0 {
        lemma_added_keeps_notes(acc, bucket, only_new, n - 1);
    }
}

proof fn lemma_removed_keeps_notes(acc: (DiffView, nat), bucket: Bucket, olds: Seq<EntityView>, only_old: Seq<int>, n: int)
    ensures
        diff_removed(acc, bucket, olds, only_old, n).0.untracked == acc.0.untracked,
    decreases n,
{
    if n > 0 {
        lemma_removed_keeps_notes(acc, bucket, olds, only_old, n - 1);
    }
}

/// The notes of the pairs only grow, each pair's body notes right after those
/// before it.
proof fn lemma_pairs_gather_notes(
    acc: (DiffView, nat),
    bucket: Bucket,
    olds: Seq<EntityView>,
    news: Seq<EntityView>,
    m: Matching,
    i: int,
    n: int,
)
    requires
        0 <= i <= n <= m.pairs@.len(),
    ensures
        begins_with(
            diff_pairs(acc, bucket, olds, news, pairs_of(m), n).0.untracked,
            diff_pairs(acc, bucket, olds, news, pairs_of(m), i).0.untracked,
        ),
        i < n ==> begins_with(
            diff_pairs(acc, bucket, olds, news, pairs_of(m), n).0.untracked,
            diff_pairs(acc, bucket, olds, news, pairs_of(m), i).0.untracked + body_notes(
                olds[m.pairs@[i].old as int],
                news[m.pairs@[i].new as int],
            ),
        ),
    decreases n - i,
{
    let di = diff_pairs(acc, bucket, olds, news, pairs_of(m), i).0.untracked;
    let dn = diff_pairs(acc, bucket, olds, news, pairs_of(m), n).0.untracked;
    if i < n {
        let d1 = diff_pairs(acc, bucket, olds, news, pairs_of(m), i + 1).0.untracked;
        let p = pairs_of(m)[i];
        assert(p == (m.pairs@[i].old as int, m.pairs@[i].new as int, m.pairs@[i].confidence, m.pairs@[i].score@));
        let step = di + body_notes(olds[p.0], news[p.1]);
        assert(begins_with(d1, step));
        lemma_pairs_gather_notes(acc, bucket, olds, news, m, i + 1, n);
        assert(begins_with(dn, d1));
        assert forall|q: int| 0 <= q < step.len() implies #[trigger] dn[q] == step[q] by {
            assert(dn[q] == d1[q]);
        }
        assert forall|q: int| 0 <= q < di.len() implies #[trigger] dn[q] == di[q] by {
            assert(dn[q] == step[q]);
        }
    }
}

/// A note on a body of a matched pair of either list reaches the diff's
/// untracked changes.
proof fn lemma_body_note_reaches_diff(o: MapView, w: MapView, me: Matching, mh: Matching, b: Bucket, k: int, x: Seq<char>)
    requires
        0 <= k < matching_for(me, mh, b).pairs@.len(),
        body_notes(
            list_of(o, b)[matching_for(me, mh, b).pairs@[k].old as int],
            list_of(w, b)[matching_for(me, mh, b).pairs@[k].new as int],
        ).contains(x),
    ensures
        map_diff(o, w, me, mh).untracked.contains(x),
{
    let m = matching_for(me, mh, b);
    let (olds, news) = (list_of(o, b), list_of(w, b));
    let start = (empty_diff(), 0nat);
    let e1 = diff_pairs(start, Bucket::Entity, o.entities, w.entities, pairs_of(me), me.pairs@.len() as int);
    let d1 = bucket_diff(start, Bucket::Entity, o.entities, w.entities, me);
    lemma_added_removed_keep_notes(e1, Bucket::Entity, o.entities, me);
    let h1 = diff_pairs(d1, Bucket::Hidden, o.hiddens, w.hiddens, pairs_of(mh), mh.pairs@.len() as int);
    let d2 = bucket_diff(d1, Bucket::Hidden, o.hiddens, w.hiddens, mh);
    lemma_added_removed_keep_notes(h1, Bucket::Hidden, o.hiddens, mh);
    assert(d1.0.untracked == e1.0.untracked);
    assert(d2.0.untracked == h1.0.untracked);
    let acc = match b {
        Bucket::Entity => start,
        Bucket::Hidden => d1,
    };
    let full = diff_pairs(acc, b, olds, news, pairs_of(m), m.pairs@.len() as int).0.untracked;
    lemma_pairs_gather_notes(acc, b, olds, news, m, k, m.pairs@.len() as int);
    let before = diff_pairs(acc, b, olds, news, pairs_of(m), k).0.untracked;
    let notes = body_notes(olds[m.pairs@[k].old as int], news[m.pairs@[k].new as int]);
    let q = choose|q: int| 0 <= q < notes.len() && notes[q] == x;
    assert(full[before.len() + q] == (before + notes)[before.len() + q]);
    assert(full[before.len() + q] == x);
    lemma_pairs_gather_notes(d1, Bucket::Hidden, o.hiddens, w.hiddens, mh, 0, mh.pairs@.len() as int);
    let all = map_diff(o, w, me, mh).untracked;
    assert(all == d2.0.untracked + section_notes(o, w));
    match b {
        Bucket::Entity => {
            assert(diff_pairs(d1, Bucket::Hidden, o.hiddens, w.hiddens, pairs_of(mh), 0).0.untracked == d1.0.untracked);
            assert(all[before.len() + q] == h1.0.untracked[before.len() + q]);
            assert(all[before.len() + q] == x);
        },
        Bucket::Hidden => {
            assert(all[before.len() + q] == x);
        },
    }
}

/// A paired entity whose brushes, editor block, visgroups or unmodelled blocks
/// the tool changed leaves its note (`entity <id>: solids changed`,
/// `...: editor block changed`, `...: unmodelled blocks changed`) among the
/// diff's untracked changes, so that finishing the edit is refused.
pub proof fn law_body_change_is_untracked(o: MapView, w: MapView, me: Matching, mh: Matching, b: Bucket, k: int)
    requires
        0 <= k < matching_for(me, mh, b).pairs@.len(),
    ensures
        ({
            let p = matching_for(me, mh, b).pairs@[k];
            let (before, after) = (list_of(o, b)[p.old as int], list_of(w, b)[p.new as int]);
            let notes = map_diff(o, w, me, mh).untracked;
            &&& solids_differ(before.body, after.body) ==> notes.contains(
                entity_note(before.key_values, ": solids changed"@),
            )
            &&& editors_differ(before.body, after.body) || before.visgroup_ids != after.visgroup_ids
                ==> notes.contains(entity_note(before.key_values, ": editor block changed"@))
            &&& extras_differ(before.body, after.body) ==> notes.contains(
                entity_note(before.key_values, ": unmodelled blocks changed"@),
            )
        }),
{
    let m = matching_for(me, mh, b);
    let p = m.pairs@[k];
    let (before, after) = (list_of(o, b)[p.old as int], list_of(w, b)[p.new as int]);
    let notes = body_notes(before, after);
    let n1 = note_if(solids_differ(before.body, after.body), entity_note(before.key_values, ": solids changed"@));
    let n2 = note_if(
        editors_differ(before.body, after.body) || before.visgroup_ids != after.visgroup_ids,
        entity_note(before.key_values, ": editor block changed"@),
    );
    let n3 = note_if(extras_differ(before.body, after.body), entity_note(before.key_values, ": unmodelled blocks changed"@));
    assert(notes == n1 + n2 + n3);
    if solids_differ(before.body, after.body) {
        assert(notes[0] == entity_note(before.key_values, ": solids changed"@));
        lemma_body_note_reaches_diff(o, w, me, mh, b, k, entity_note(before.key_values, ": solids changed"@));
    }
    if editors_differ(before.body, after.body) || before.visgroup_ids != after.visgroup_ids {
        assert(notes[n1.len() as int] == entity_note(before.key_values, ": editor block changed"@));
        lemma_body_note_reaches_diff(o, w, me, mh, b, k, entity_note(before.key_values, ": editor block changed"@));
    }
    if extras_differ(before.body, after.body) {
        assert(notes[(n1.len() + n2.len()) as int] == entity_note(before.key_values, ": unmodelled blocks changed"@));
        lemma_body_note_reaches_diff(
            o,
            w,
            me,
            mh,
            b,
            k,
            entity_note(before.key_values, ": unmodelled blocks changed"@),
        );
    }
}

// ---------------------------------------------------------------------------
// The tool's visgroup is for the entities it created.
// ---------------------------------------------------------------------------

/// An edit that creates no entity makes no visgroup: finishing it leaves the
/// map's visgroups as they were and the journal takes none back.
pub proof fn law_no_creation_no_visgroup(
    current: MapView,
    d: DiffView,
    opts: crate::LedgerOptions,
    map: MapView,
    journal: crate::sidecar::Journal,
)
    requires
        finished(current, d, opts, map, journal),
        forall|k: int| 0 <= k < d.ops.len() ==> !((#[trigger] d.ops[k]) is AddEntity),
    ensures
        map.rest == current.rest,
        journal.visgroups@.len() == 0,
{
    assert(!crate::edit::creates_any(d.ops));
}

// ---------------------------------------------------------------------------
// How an old journal names its tool.
// ---------------------------------------------------------------------------

/// A text with a space has a last space.
proof fn lemma_last_space_exists(s: Seq<char>)
    requires
        exists|i: int| 0 <= i < s.len() && s[i] == ' ',
    ensures
        exists|i: int| 0 <= i < s.len() && s[i] == ' ' && forall|j: int| i < j < s.len() ==> s[j] != ' ',
    decreases s.len(),
{
    let n = s.len() - 1;
    if s[n] == ' ' {
        assert(forall|j: int| n < j < s.len() ==> s[j] != ' ');
    } else {
        let d = s.drop_last();
        let w = choose|i: int| 0 <= i < s.len() && s[i] == ' ';
        assert(d[w] == ' ');
        lemma_last_space_exists(d);
        let i = choose|i: int| 0 <= i < d.len() && d[i] == ' ' && forall|j: int| i < j < d.len() ==> d[j] != ' ';
        assert(s[i] == ' ');
        assert forall|j: int| i < j < s.len() implies s[j] != ' ' by {
            if j < n {
                assert(s[j] == d[j]);
            }
        }
    }
}

/// The tool field of a single-tool journal splits at its last space: the name
/// and the version put back together with that space give the field again, and
/// the version holds no space. Without a space the whole field is the name.
pub proof fn law_legacy_split_at_last_space(tool: Seq<char>)
    ensures
        (exists|i: int| 0 <= i < tool.len() && tool[i] == ' ') ==> {
            &&& legacy_name(tool) + seq![' '] + legacy_version(tool) == tool
            &&& forall|j: int| 0 <= j < legacy_version(tool).len() ==> legacy_version(tool)[j] != ' '
        },
        (forall|i: int| 0 <= i < tool.len() ==> tool[i] != ' ') ==> legacy_name(tool) == tool && legacy_version(
            tool,
        ).len() == 0,
{
    if exists|i: int| 0 <= i < tool.len() && tool[i] == ' ' {
        lemma_last_space_exists(tool);
        let i = choose|i: int|
            0 <= i < tool.len() && tool[i] == ' ' && forall|j: int| i < j < tool.len() ==> tool[j] != ' ';
        assert(last_space(tool) == Some(i));
        let name = tool.subrange(0, i);
        let v = tool.subrange(i + 1, tool.len() as int);
        assert(legacy_name(tool) == name);
        assert(legacy_version(tool) == v);
        assert(name + seq![' '] + v =~= tool);
        assert forall|j: int| 0 <= j < v.len() implies v[j] != ' ' by {
            assert(v[j] == tool[i + 1 + j]);
        }
    }
}

// ---------------------------------------------------------------------------
// What a block's signature is made of.
// ---------------------------------------------------------------------------

/// The `key=value` piece a block gives for `key`, where it has the key.
pub open spec fn piece_of(e: Entries, key: Seq<char>) -> Option<Seq<char>> {
    match lookup(e, key) {
        Some(v) => Some(key + seq!['='] + v),
        None => None,
    }
}

/// `s` does not hold `c`.
pub open spec fn free_of(s: Seq<char>, c: char) -> bool {
    forall|i: int| 0 <= i < s.len() ==> s[i] != c
}

/// No signature key holds the separator, and no value the block has under one.
pub open spec fn separable(e: Entries, keys: Seq<Seq<char>>) -> bool {
    forall|j: int|
        0 <= j < keys.len() ==> free_of(keys[j], '\u{1}') && match #[trigger] lookup(e, keys[j]) {
            Some(v) => free_of(v, '\u{1}'),
            None => true,
        }
}

/// Each present key gives a part, and each part is the piece of a present key.
proof fn lemma_parts_members(e: Entries, keys: Seq<Seq<char>>, n: int)
    requires
        0 <= n <= keys.len(),
    ensures
        forall|j: int|
            0 <= j < n && (#[trigger] piece_of(e, keys[j])) is Some ==> signature_parts(e, keys, n).contains(
                piece_of(e, keys[j])->0,
            ),
        forall|m: int|
            #![trigger signature_parts(e, keys, n)[m]]
            0 <= m < signature_parts(e, keys, n).len() ==> exists|i: int|
                0 <= i < n && #[trigger] piece_of(e, keys[i]) == Some(signature_parts(e, keys, n)[m]),
    decreases n,
{
    if n > 0 {
        lemma_parts_members(e, keys, n - 1);
        let prev = signature_parts(e, keys, n - 1);
        let parts = signature_parts(e, keys, n);
        match lookup(e, keys[n - 1]) {
            Some(v) => {
                assert(parts == prev.push(keys[n - 1] + seq!['='] + v));
                assert forall|j: int| 0 <= j < n && (#[trigger] piece_of(e, keys[j])) is Some implies parts.contains(
                    piece_of(e, keys[j])->0,
                ) by {
                    if j == n - 1 {
                        assert(parts[parts.len() - 1] == piece_of(e, keys[j])->0);
                    } else {
                        let m = choose|m: int| 0 <= m < prev.len() && prev[m] == piece_of(e, keys[j])->0;
                        assert(parts[m] == prev[m]);
                    }
                }
                assert forall|m: int| #![trigger parts[m]] 0 <= m < parts.len() implies exists|i: int|
                    0 <= i < n && #[trigger] piece_of(e, keys[i]) == Some(parts[m]) by {
                    if m == parts.len() - 1 {
                        assert(piece_of(e, keys[n - 1]) == Some(parts[m]));
                    } else {
                        assert(parts[m] == prev[m]);
                        let i = choose|i: int| 0 <= i < n - 1 && #[trigger] piece_of(e, keys[i]) == Some(prev[m]);
                        assert(piece_of(e, keys[i]) == Some(parts[m]));
                    }
                }
            },
            None => {
                assert(parts == prev);
            },
        }
    }
}

/// A piece holds the separator only where its key or value does.
proof fn lemma_piece_free(key: Seq<char>, v: Seq<char>, c: char)
    requires
        free_of(key, c),
        free_of(v, c),
        c != '=',
    ensures
        free_of(key + seq!['='] + v, c),
{
    let p = key + seq!['='] + v;
    assert forall|i: int| 0 <= i < p.len() implies p[i] != c by {
        if i < key.len() {
            assert(p[i] == key[i]);
        } else if i > key.len() {
            assert(p[i] == v[i - key.len() - 1]);
        }
    }
}

/// Splitting at a separator that no part holds gives back the parts joined with it.
proof fn lemma_split_of_joined(parts: Seq<Seq<char>>, c: char)
    requires
        parts.len() >= 1,
        forall|m: int| 0 <= m < parts.len() ==> free_of(#[trigger] parts[m], c),
    ensures
        split_on(joined(parts, seq![c]), c) == parts,
    decreases parts.len(),
{
    if parts.len() == 1 {
        assert(free_of(parts[0], c));
        lemma_split_single(parts[0], c);
        assert(seq![parts[0]] =~= parts);
    } else {
        let dl = parts.drop_last();
        assert forall|m: int| 0 <= m < dl.len() implies free_of(#[trigger] dl[m], c) by {
            assert(dl[m] == parts[m]);
        }
        lemma_split_of_joined(dl, c);
        lemma_split_concat(joined(dl, seq![c]), parts.last(), c);
        assert(free_of(parts[parts.len() - 1], c));
        lemma_split_single(parts.last(), c);
        assert(dl + seq![parts.last()] =~= parts);
    }
}

/// The parts of a block's signature are free of the separator.
proof fn lemma_parts_free(e: Entries, keys: Seq<Seq<char>>)
    requires
        separable(e, keys),
    ensures
        forall|m: int|
            0 <= m < signature_parts(e, keys, keys.len() as int).len() ==> free_of(
                #[trigger] signature_parts(e, keys, keys.len() as int)[m],
                '\u{1}',
            ),
{
    let parts = signature_parts(e, keys, keys.len() as int);
    lemma_parts_members(e, keys, keys.len() as int);
    assert forall|m: int| 0 <= m < parts.len() implies free_of(#[trigger] parts[m], '\u{1}') by {
        let i = choose|i: int| 0 <= i < keys.len() && #[trigger] piece_of(e, keys[i]) == Some(parts[m]);
        let v = lookup(e, keys[i])->0;
        lemma_piece_free(keys[i], v, '\u{1}');
    }
}

/// A block's signature names every signature key it has, with its value: the
/// signature is absent exactly where the block has none of the keys, and
/// otherwise it splits at U+0001 into pieces that hold `key=value` for each key
/// it has and nothing else.
pub proof fn law_signature_names_every_key(e: Entries, keys: Seq<Seq<char>>)
    requires
        separable(e, keys),
    ensures
        signature_of(e, keys) is None <==> forall|j: int| 0 <= j < keys.len() ==> lookup(e, keys[j]) is None,
        signature_of(e, keys) matches Some(s) ==> {
            &&& forall|j: int|
                0 <= j < keys.len() && lookup(e, keys[j]) is Some ==> split_on(s, '\u{1}').contains(
                    keys[j] + seq!['='] + lookup(e, keys[j])->0,
                )
            &&& forall|m: int|
                #![trigger split_on(s, '\u{1}')[m]]
                0 <= m < split_on(s, '\u{1}').len() ==> exists|i: int|
                    0 <= i < keys.len() && lookup(e, keys[i]) is Some && split_on(s, '\u{1}')[m]
                        == keys[i] + seq!['='] + lookup(e, keys[i])->0
        },
{
    let n = keys.len() as int;
    let parts = signature_parts(e, keys, n);
    lemma_parts_members(e, keys, n);
    if parts.len() == 0 {
        assert forall|j: int| 0 <= j < keys.len() implies lookup(e, keys[j]) is None by {
            if lookup(e, keys[j]) is Some {
                assert((#[trigger] piece_of(e, keys[j])) is Some);
            }
        }
    } else {
        let m0 = 0int;
        let i0 = choose|i: int| 0 <= i < n && #[trigger] piece_of(e, keys[i]) == Some(parts[m0]);
        assert(lookup(e, keys[i0]) is Some);
        lemma_parts_free(e, keys);
        lemma_split_of_joined(parts, '\u{1}');
        let s = joined(parts, seq!['\u{1}']);
        assert(split_on(s, '\u{1}') == parts);
        assert forall|j: int| 0 <= j < keys.len() && lookup(e, keys[j]) is Some implies parts.contains(
            keys[j] + seq!['='] + lookup(e, keys[j])->0,
        ) by {
            assert((#[trigger] piece_of(e, keys[j])) is Some);
        }
        assert forall|m: int| #![trigger parts[m]] 0 <= m < parts.len() implies exists|i: int|
            0 <= i < keys.len() && lookup(e, keys[i]) is Some && parts[m] == keys[i] + seq!['='] + lookup(
                e,
                keys[i],
            )->0 by {
            let i = choose|i: int| 0 <= i < n && #[trigger] piece_of(e, keys[i]) == Some(parts[m]);
            assert(lookup(e, keys[i]) is Some);
        }
    }
}

/// A piece gives back its key and value, where keys hold no `=`.
proof fn lemma_piece_decodes(k1: Seq<char>, v1: Seq<char>, k2: Seq<char>, v2: Seq<char>)
    requires
        free_of(k1, '='),
        free_of(k2, '='),
        k1 + seq!['='] + v1 == k2 + seq!['='] + v2,
    ensures
        k1 == k2,
        v1 == v2,
{
    let a = k1 + seq!['='] + v1;
    let b = k2 + seq!['='] + v2;
    if k1.len() < k2.len() {
        assert(a[k1.len() as int] == '=');
        assert(b[k1.len() as int] == k2[k1.len() as int]);
    } else if k2.len() < k1.len() {
        assert(b[k2.len() as int] == '=');
        assert(a[k2.len() as int] == k1[k2.len() as int]);
    } else {
        assert(k1 =~= a.subrange(0, k1.len() as int));
        assert(k2 =~= b.subrange(0, k2.len() as int));
        assert(v1 =~= a.subrange(k1.len() as int + 1, a.len() as int));
        assert(v2 =~= b.subrange(k2.len() as int + 1, b.len() as int));
    }
}

/// The signature keys hold no `=`.
pub open spec fn keys_without_equals(keys: Seq<Seq<char>>) -> bool {
    forall|j: int| 0 <= j < keys.len() ==> free_of(#[trigger] keys[j], '=')
}

/// Two blocks with the same signature agree on every signature key: a block
/// that differs from another in the value of any signature key (or in having
/// it) gets another signature. So two props of one class at different origins
/// are told apart by their signatures.
pub proof fn law_signature_tells_blocks_apart(e1: Entries, e2: Entries, keys: Seq<Seq<char>>)
    requires
        keys_without_equals(keys),
        separable(e1, keys),
        separable(e2, keys),
        signature_of(e1, keys) == signature_of(e2, keys),
    ensures
        forall|j: int| 0 <= j < keys.len() ==> lookup(e1, keys[j]) == lookup(e2, keys[j]),
{
    let n = keys.len() as int;
    let p1 = signature_parts(e1, keys, n);
    let p2 = signature_parts(e2, keys, n);
    law_signature_names_every_key(e1, keys);
    law_signature_names_every_key(e2, keys);
    lemma_parts_members(e1, keys, n);
    lemma_parts_members(e2, keys, n);
    if p1.len() > 0 {
        lemma_parts_free(e1, keys);
        lemma_parts_free(e2, keys);
        lemma_split_of_joined(p1, '\u{1}');
        lemma_split_of_joined(p2, '\u{1}');
        assert(p1 == p2);
        assert forall|j: int| 0 <= j < keys.len() implies lookup(e1, keys[j]) == lookup(e2, keys[j]) by {
            lemma_side_agrees(e1, e2, keys, p1, j);
            lemma_side_agrees(e2, e1, keys, p1, j);
        }
    } else {
        assert forall|j: int| 0 <= j < keys.len() implies lookup(e1, keys[j]) == lookup(e2, keys[j]) by {
            if lookup(e1, keys[j]) is Some {
                assert((#[trigger] piece_of(e1, keys[j])) is Some);
            }
            if lookup(e2, keys[j]) is Some {
                assert((#[trigger] piece_of(e2, keys[j])) is Some);
            }
        }
    }
}

/// Where two blocks share their signature parts, what one has under a key the
/// other has too.
proof fn lemma_side_agrees(e1: Entries, e2: Entries, keys: Seq<Seq<char>>, parts: Seq<Seq<char>>, j: int)
    requires
        keys_without_equals(keys),
        0 <= j < keys.len(),
        parts == signature_parts(e1, keys, keys.len() as int),
        parts == signature_parts(e2, keys, keys.len() as int),
    ensures
        lookup(e1, keys[j]) matches Some(v) ==> lookup(e2, keys[j]) == Some(v),
{
    let n = keys.len() as int;
    lemma_parts_members(e1, keys, n);
    lemma_parts_members(e2, keys, n);
    if lookup(e1, keys[j]) is Some {
        let v = lookup(e1, keys[j])->0;
        assert((#[trigger] piece_of(e1, keys[j])) is Some);
        let m = choose|m: int| 0 <= m < parts.len() && parts[m] == piece_of(e1, keys[j])->0;
        let i = choose|i: int| 0 <= i < n && #[trigger] piece_of(e2, keys[i]) == Some(parts[m]);
        let w = lookup(e2, keys[i])->0;
        assert(free_of(keys[i], '='));
        assert(free_of(keys[j], '='));
        lemma_piece_decodes(keys[i], w, keys[j], v);
    }
}

} // verus!
