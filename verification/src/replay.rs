//! What a rollback finds in a map the ledger compiled: every marker where the
//! journal expects it, nothing in the way, and each list back as it was.

use vstd::prelude::*;

use crate::diff::{bucket_diff, empty_diff, keyvalue_diff, map_diff, pair_ops, undo_after, undo_before, undo_entry, MarkView};
use crate::edit::{creates, finished, group_for, join_created, stamp_marks};
use crate::kv::{distinct_keys, has_key, key_at, key_pos, lemma_key_pos_unique, lookup, Entries};
use crate::matching::Matching;
use crate::model::{EntityView, MapView};
use crate::ops::{Bucket, OpView};
use crate::rebuild::{ascending_in, enumerates, lemma_kept_enumerated, lemma_merge, listed_from, taken_out};
use crate::rollback::{
    collision_of, collisions_in, marker_index, tokens_distinct, CollisionView, created, created_at, entity_at, for_token, kept_from, located, ops_at, rolled_back, rolled_back_list,
    rolled_list, stripped, token_at,
};
use crate::roundtrip::{
    active, bucket_marks, expected, kept_in_place, lemma_entity_round_trip, lemma_join_created, lemma_keyvalue_ops_kinds,
    lemma_lookup_push, lemma_partner, lemma_partner_none, lemma_proper_created, lemma_proper_deleted, lemma_proper_pairs,
    lemma_restored_is_insert_all, lemma_stamp_marks, list_of, marked_as, marked_spot, marks_apart, matching_for,
    new_created, new_paired, old_dropped, old_paired, partner, proper, sits, stamped_entity, unstamped, deleted_list,
    insert_all, removals_of, lemma_map, lemma_index, sound,
};
use crate::undo::{drop_key, put, stamp};

verus! {

// ---------------------------------------------------------------------------
// Where the marks of a diff sit.
// ---------------------------------------------------------------------------

/// The marks of a map's diff: each sits in the list of its bucket, on a spot
/// that gets a mark, no two on one entity, and every such spot carries one.
#[verifier::opaque]
pub open spec fn map_marks(marks: Seq<MarkView>, o: MapView, w: MapView, me: Matching, mh: Matching) -> bool {
    &&& forall|q: int| 0 <= q < marks.len() ==> (#[trigger] marks[q]).idx < list_of(w, marks[q].bucket).len()
        && marked_spot(
        list_of(o, marks[q].bucket),
        list_of(w, marks[q].bucket),
        matching_for(me, mh, marks[q].bucket),
        marks[q].idx as int,
    )
    &&& marks_apart(marks)
    &&& forall|b: Bucket, j: int| 0 <= j < list_of(w, b).len() && #[trigger] marked_spot(
        list_of(o, b),
        list_of(w, b),
        matching_for(me, mh, b),
        j,
    ) ==> exists|q: int| #[trigger] sits(marks, q, b, j)
}

pub(crate) proof fn lemma_map_marks(marks: Seq<MarkView>, n1: int, o: MapView, w: MapView, me: Matching, mh: Matching)
    requires
        0 <= n1 <= marks.len(),
        bucket_marks(marks.subrange(0, n1), 0, Bucket::Entity, o.entities, w.entities, me),
        bucket_marks(marks, n1, Bucket::Hidden, o.hiddens, w.hiddens, mh),
    ensures
        map_marks(marks, o, w, me, mh),
{
    reveal(bucket_marks);
    reveal(map_marks);
    let sub = marks.subrange(0, n1);
    assert(list_of(o, Bucket::Entity) == o.entities && list_of(w, Bucket::Entity) == w.entities);
    assert(list_of(o, Bucket::Hidden) == o.hiddens && list_of(w, Bucket::Hidden) == w.hiddens);
    assert(matching_for(me, mh, Bucket::Entity) == me && matching_for(me, mh, Bucket::Hidden) == mh);
    assert forall|q: int| 0 <= q < marks.len() implies (#[trigger] marks[q]).idx < list_of(w, marks[q].bucket).len()
        && marked_spot(
        list_of(o, marks[q].bucket),
        list_of(w, marks[q].bucket),
        matching_for(me, mh, marks[q].bucket),
        marks[q].idx as int,
    ) by {
        if q < n1 {
            assert(sub[q] == marks[q]);
        }
    }
    assert(marks_apart(marks)) by {
        assert forall|q1: int, q2: int| 0 <= q1 < marks.len() && 0 <= q2 < marks.len() && q1 != q2 implies !(marks[q1].bucket
            == marks[q2].bucket && marks[q1].idx == marks[q2].idx) by {
            if q1 < n1 && q2 < n1 {
                assert(sub[q1] == marks[q1] && sub[q2] == marks[q2]);
            } else if q1 < n1 {
                assert(sub[q1] == marks[q1]);
            } else if q2 < n1 {
                assert(sub[q2] == marks[q2]);
            }
        }
    }
    assert forall|b: Bucket, j: int| 0 <= j < list_of(w, b).len() && #[trigger] marked_spot(
        list_of(o, b),
        list_of(w, b),
        matching_for(me, mh, b),
        j,
    ) implies exists|q: int| #[trigger] sits(marks, q, b, j) by {
        if b == Bucket::Entity {
            let q = choose|q: int| 0 <= q < sub.len() && (#[trigger] sub[q]).idx == j;
            assert(sub[q] == marks[q]);
            assert(sits(marks, q, b, j));
        } else {
            let q = choose|q: int| n1 <= q < marks.len() && (#[trigger] marks[q]).idx == j;
            assert(sits(marks, q, b, j));
        }
    }
}

// ---------------------------------------------------------------------------
// The lists a finished edit leaves.
// ---------------------------------------------------------------------------

/// `cl` is `wl` with the marks of `bucket` stamped in: a marked entity carries
/// its mark's token under `mk`, keeps its connections and body, and keeps its
/// visgroups unless the tool created it; an unmarked entity is as it was.
pub open spec fn stamped_list(
    cl: Seq<EntityView>,
    wl: Seq<EntityView>,
    marks: Seq<MarkView>,
    bucket: Bucket,
    mk: Seq<char>,
    ops: Seq<OpView>,
) -> bool {
    &&& cl.len() == wl.len()
    &&& forall|j: int, q: int| 0 <= j < wl.len() && #[trigger] sits(marks, q, bucket, j) ==> {
        &&& cl[j].key_values == put(wl[j].key_values, mk, marks[q].token)
        &&& cl[j].connections == wl[j].connections
        &&& cl[j].body == wl[j].body
        &&& !creates(ops, marks[q].token) ==> cl[j].visgroup_ids == wl[j].visgroup_ids
    }
    &&& forall|j: int| 0 <= j < wl.len() && (forall|q: int| !#[trigger] sits(marks, q, bucket, j)) ==> #[trigger] cl[j]
        == wl[j]
}

pub(crate) proof fn lemma_stamped_plain(wl: Seq<EntityView>, marks: Seq<MarkView>, bucket: Bucket, mk: Seq<char>, ops: Seq<OpView>)
    requires
        marks_apart(marks),
    ensures
        stamped_list(stamp_marks(wl, marks, bucket, mk), wl, marks, bucket, mk, ops),
{
    lemma_stamp_marks(wl, marks, bucket, mk, marks.len() as int);
    assert(marks.subrange(0, marks.len() as int) =~= marks);
}

pub(crate) proof fn lemma_stamped_joined(
    wl: Seq<EntityView>,
    marks: Seq<MarkView>,
    bucket: Bucket,
    mk: Seq<char>,
    ops: Seq<OpView>,
    id: i32,
)
    requires
        marks_apart(marks),
    ensures
        stamped_list(join_created(stamp_marks(wl, marks, bucket, mk), marks, bucket, ops, id), wl, marks, bucket, mk, ops),
{
    let n = marks.len() as int;
    let sl = stamp_marks(wl, marks, bucket, mk);
    lemma_stamp_marks(wl, marks, bucket, mk, n);
    lemma_join_created(sl, marks, bucket, ops, id, n);
    assert(marks.subrange(0, n) =~= marks);
    let cl = join_created(sl, marks, bucket, ops, id);
    assert forall|j: int, q: int| 0 <= j < wl.len() && #[trigger] sits(marks, q, bucket, j) && !creates(
        ops,
        marks[q].token,
    ) implies cl[j].visgroup_ids == wl[j].visgroup_ids by {
        assert forall|q2: int| 0 <= q2 < n && sits(marks, q2, bucket, j) implies !creates(ops, marks[q2].token) by {
            if q2 != q {
                assert(marks[q2].bucket == marks[q].bucket && marks[q2].idx == marks[q].idx);
            }
        }
        assert(sl[j] == crate::roundtrip::stamped_entity(wl[j], mk, marks[q].token));
    }
    assert forall|j: int| 0 <= j < wl.len() && (forall|q: int| !#[trigger] sits(marks, q, bucket, j)) implies #[trigger] cl[j]
        == wl[j] by {
        assert forall|q: int| 0 <= q < n implies !sits(marks, q, bucket, j) by {
            assert(!sits(marks, q, bucket, j));
        }
    }
}

// ---------------------------------------------------------------------------
// The markers in the compiled map.
// ---------------------------------------------------------------------------

/// No entity of `m` carries the key `mk`.
pub open spec fn unmarked(m: MapView, mk: Seq<char>) -> bool {
    &&& forall|j: int| 0 <= j < m.entities.len() ==> !has_key(#[trigger] m.entities[j].key_values, mk)
    &&& forall|j: int| 0 <= j < m.hiddens.len() ==> !has_key(#[trigger] m.hiddens[j].key_values, mk)
}

/// A key not yet present goes last.
pub(crate) proof fn lemma_put_fresh(e: Entries, k: Seq<char>, v: Seq<char>)
    requires
        !has_key(e, k),
    ensures
        put(e, k, v) == e.push((k, v)),
        has_key(put(e, k, v), k),
        key_pos(put(e, k, v), k) == e.len(),
        lookup(put(e, k, v), k) == Some(v),
{
    let e2 = e.push((k, v));
    assert(key_at(e2, k, e.len() as int));
    assert forall|i: int| key_at(e2, k, i) implies i == e.len() by {
        if i < e.len() {
            assert(key_at(e, k, i));
        }
    }
    assert(key_pos(e2, k) == e.len());
}

/// No key occurs twice in any entity of `m`, as in every map read from a file.
pub open spec fn keys_distinct(m: MapView) -> bool {
    &&& forall|j: int| 0 <= j < m.entities.len() ==> distinct_keys(#[trigger] m.entities[j].key_values)
    &&& forall|j: int| 0 <= j < m.hiddens.len() ==> distinct_keys(#[trigger] m.hiddens[j].key_values)
}

/// Writing a key gives it the value written, wherever it was.
pub(crate) proof fn lemma_put_lookup(e: Entries, k: Seq<char>, v: Seq<char>)
    requires
        distinct_keys(e),
    ensures
        lookup(put(e, k, v), k) == Some(v),
{
    if has_key(e, k) {
        let p = key_pos(e, k);
        let u = e.update(p, (k, v));
        assert(key_at(u, k, p));
        assert forall|i: int| key_at(u, k, i) implies i == p by {
            if i != p {
                assert(u[i] == e[i]);
            }
        }
        assert(key_pos(u, k) == p);
    } else {
        lemma_put_fresh(e, k, v);
    }
}

pub(crate) proof fn lemma_marked(
    o: MapView,
    w: MapView,
    me: Matching,
    mh: Matching,
    c: MapView,
    marks: Seq<MarkView>,
    mk: Seq<char>,
    ops: Seq<OpView>,
)
    requires
        proper(me, o.entities.len() as int, w.entities.len() as int),
        proper(mh, o.hiddens.len() as int, w.hiddens.len() as int),
        map_marks(marks, o, w, me, mh),
        pairs_in_place(o.entities, w.entities, me, mk),
        pairs_in_place(o.hiddens, w.hiddens, mh, mk),
        stamped_list(c.entities, w.entities, marks, Bucket::Entity, mk, ops),
        stamped_list(c.hiddens, w.hiddens, marks, Bucket::Hidden, mk, ops),
        keys_distinct(w),
    ensures
        marked_as(c, marks, mk),
{
    reveal(marked_as);
    reveal(map_marks);
    assert(list_of(c, Bucket::Entity) == c.entities && list_of(w, Bucket::Entity) == w.entities);
    assert(list_of(c, Bucket::Hidden) == c.hiddens && list_of(w, Bucket::Hidden) == w.hiddens);
    assert(list_of(o, Bucket::Entity) == o.entities && list_of(o, Bucket::Hidden) == o.hiddens);
    assert(matching_for(me, mh, Bucket::Entity) == me && matching_for(me, mh, Bucket::Hidden) == mh);
    assert forall|q: int| 0 <= q < marks.len() implies (#[trigger] marks[q]).idx < list_of(c, marks[q].bucket).len() by {}
    assert forall|b: Bucket, j: int, q: int| 0 <= j < list_of(c, b).len() && #[trigger] sits(marks, q, b, j) implies lookup(
        list_of(c, b)[j].key_values,
        mk,
    ) == Some(marks[q].token) by {
        lemma_put_lookup(list_of(w, b)[j].key_values, mk, marks[q].token);
    }
    assert forall|b: Bucket, j: int| 0 <= j < list_of(c, b).len() && (forall|q: int| !#[trigger] sits(marks, q, b, j)) implies !has_key(
        #[trigger] list_of(c, b)[j].key_values,
        mk,
    ) by {
        let m = matching_for(me, mh, b);
        let (ol, wl) = (list_of(o, b), list_of(w, b));
        assert(list_of(c, b)[j] == wl[j]);
        lemma_proper_created(m, ol.len() as int, wl.len() as int);
        if !new_paired(m, j) {
            assert(new_created(m, j));
            assert(marked_spot(ol, wl, m, j));
        } else {
            let k = choose|k: int| 0 <= k < m.pairs@.len() && m.pairs@[k].new == j;
            assert(kept_in_place(ol[m.pairs@[k].old as int], wl[m.pairs@[k].new as int], mk));
        }
    }
}

// ---------------------------------------------------------------------------
// What the index and the journal say of the marks.
// ---------------------------------------------------------------------------

/// What the index of the compiled map says of the marks: each mark's token
/// leads to the entity it sits on, and an entity without a mark has no token.
pub open spec fn index_agrees(ix: Seq<(Seq<char>, Bucket, int)>, marks: Seq<MarkView>) -> bool {
    &&& forall|q: int| 0 <= q < marks.len() ==> located(ix, (#[trigger] marks[q]).token) == Some(
        (marks[q].bucket, marks[q].idx as int),
    )
    &&& forall|b: Bucket, j: int, q: int| #[trigger] sits(marks, q, b, j) ==> token_at(ix, b, j) == Some(marks[q].token)
    &&& forall|b: Bucket, j: int| (forall|q: int| !#[trigger] sits(marks, q, b, j)) ==> #[trigger] token_at(ix, b, j) is None
}

/// What the journal says of the marks: each mark's token picks out exactly the
/// operations it stands for, and every operation but a deletion belongs to a
/// mark.
pub open spec fn journal_agrees(ops: Seq<OpView>, marks: Seq<MarkView>, o: MapView, w: MapView, me: Matching, mh: Matching) -> bool {
    &&& forall|q: int| 0 <= q < marks.len() ==> for_token(ops, (#[trigger] marks[q]).token) == expected(o, w, me, mh, marks[q])
    &&& forall|k: int| 0 <= k < ops.len() && !((#[trigger] ops[k]) is RemoveEntity) ==> exists|q: int|
        0 <= q < marks.len() && marks[q].token == ops[k].at()
}

/// Every pair of the matching kept its entity in place, visgroups included.
pub open spec fn pairs_in_place(ol: Seq<EntityView>, wl: Seq<EntityView>, m: Matching, mk: Seq<char>) -> bool {
    forall|k: int| 0 <= k < m.pairs@.len() ==> kept_in_place(ol[(#[trigger] m.pairs@[k]).old as int], wl[m.pairs@[k].new as int], mk)
        && wl[m.pairs@[k].new as int].visgroup_ids == ol[m.pairs@[k].old as int].visgroup_ids
}

proof fn lemma_for_token_has(ops: Seq<OpView>, t: Seq<char>, k: int) -> (r: int)
    requires
        0 <= k < ops.len(),
        ops[k].at() == t,
    ensures
        0 <= r < for_token(ops, t).len(),
        for_token(ops, t)[r] == ops[k],
    decreases ops.len(),
{
    if k == ops.len() - 1 {
        (for_token(ops, t).len() - 1) as int
    } else {
        assert(ops.drop_last()[k] == ops[k]);
        lemma_for_token_has(ops.drop_last(), t, k)
    }
}

/// The operations of a pair carry no creation or deletion.
proof fn lemma_pair_kinds(b: EntityView, a: EntityView, t: Seq<char>, r: int)
    requires
        0 <= r < stamp(pair_ops(b, a), t).len(),
    ensures
        !(stamp(pair_ops(b, a), t)[r] is AddEntity),
        !(stamp(pair_ops(b, a), t)[r] is RemoveEntity),
        stamp(pair_ops(b, a), t)[r] == pair_ops(b, a)[r].with_at(t),
{
    lemma_keyvalue_ops_kinds(b.key_values, a.key_values);
    let kd = keyvalue_diff(b.key_values, a.key_values);
    if r < kd.len() {
        assert(pair_ops(b, a)[r] == kd[r]);
    }
}

/// A mark that stands for a pair names no entity the tool created.
proof fn lemma_pair_creates_nothing(ops: Seq<OpView>, b: EntityView, a: EntityView, t: Seq<char>)
    requires
        for_token(ops, t) == stamp(pair_ops(b, a), t),
    ensures
        !creates(ops, t),
{
    if creates(ops, t) {
        let k = choose|k: int| 0 <= k < ops.len() && (#[trigger] ops[k]) is AddEntity && ops[k].at() == t;
        let r = lemma_for_token_has(ops, t, k);
        lemma_pair_kinds(b, a, t, r);
    }
}

// ---------------------------------------------------------------------------
// The entities the tool created.
// ---------------------------------------------------------------------------

/// A rollback takes out exactly the entities the matching lists as created.
pub(crate) proof fn lemma_created_spots(
    o: MapView,
    w: MapView,
    me: Matching,
    mh: Matching,
    ops: Seq<OpView>,
    marks: Seq<MarkView>,
    ix: Seq<(Seq<char>, Bucket, int)>,
    b: Bucket,
    j: int,
)
    requires
        proper(matching_for(me, mh, b), list_of(o, b).len() as int, list_of(w, b).len() as int),
        map_marks(marks, o, w, me, mh),
        index_agrees(ix, marks),
        journal_agrees(ops, marks, o, w, me, mh),
        0 <= j < list_of(w, b).len(),
    ensures
        created_at(ops, ix, b, j) <==> new_created(matching_for(me, mh, b), j),
{
    reveal(map_marks);
    let m = matching_for(me, mh, b);
    let (ol, wl) = (list_of(o, b), list_of(w, b));
    lemma_proper_created(m, ol.len() as int, wl.len() as int);
    if new_created(m, j) {
        let r0 = choose|r: int| 0 <= r < m.only_new@.len() && m.only_new@[r] as int == j;
        assert(!new_paired(m, j));
        lemma_partner_none(m, j);
        assert(marked_spot(ol, wl, m, j));
        let q = choose|q: int| #[trigger] sits(marks, q, b, j);
        let t = marks[q].token;
        assert(expected(o, w, me, mh, marks[q]) == seq![OpView::AddEntity { at: t, bucket: b }]);
        assert(for_token(ops, t)[0] == OpView::AddEntity { at: t, bucket: b });
        let k = lemma_for_token_from(ops, t, 0);
        assert(ops[k] is AddEntity && located(ix, ops[k].at()) == Some((b, j)));
    }
    if created_at(ops, ix, b, j) {
        let k = choose|k: int|
            0 <= k < ops.len() && (#[trigger] ops[k]) is AddEntity && located(ix, ops[k].at()) == Some((b, j));
        let t = ops[k].at();
        let q = choose|q: int| 0 <= q < marks.len() && marks[q].token == ops[k].at();
        assert(located(ix, marks[q].token) == Some((marks[q].bucket, marks[q].idx as int)));
        assert(sits(marks, q, b, j));
        let r = lemma_for_token_has(ops, t, k);
        match partner(m, j) {
            Some(i) => {
                assert(expected(o, w, me, mh, marks[q]) == stamp(pair_ops(ol[i], wl[j]), t));
                lemma_pair_kinds(ol[i], wl[j], t, r);
            },
            None => {
                assert(!new_paired(m, j));
            },
        }
    }
}

proof fn lemma_for_token_from(ops: Seq<OpView>, t: Seq<char>, r: int) -> (k: int)
    requires
        0 <= r < for_token(ops, t).len(),
    ensures
        0 <= k < ops.len(),
        ops[k] == for_token(ops, t)[r],
    decreases ops.len(),
{
    let prev = for_token(ops.drop_last(), t);
    if ops.last().at() == t && r == prev.len() {
        (ops.len() - 1) as int
    } else {
        let k = lemma_for_token_from(ops.drop_last(), t, r);
        assert(ops[k] == ops.drop_last()[k]);
        k
    }
}

// ---------------------------------------------------------------------------
// Each list comes back.
// ---------------------------------------------------------------------------

proof fn lemma_rollback_nothing(e: EntityView)
    ensures
        rolled_back(e, Seq::<OpView>::empty()) == e,
{
    let none = Seq::<OpView>::empty();
    assert(crate::undo::sorted_removals(none) == none);
    assert(crate::undo::rollback_keyvalues(e.key_values, none) == e.key_values);
}

proof fn lemma_unstamp_fresh(a: EntityView, mk: Seq<char>, t: Seq<char>)
    requires
        !has_key(a.key_values, mk),
    ensures
        unstamped(stamped_entity(a, mk, t), mk) == a,
        unstamped(a, mk) == a,
{
    lemma_put_fresh(a.key_values, mk, t);
    let e2 = a.key_values.push((mk, t));
    assert(e2.remove(a.key_values.len() as int) =~= a.key_values);
    assert(drop_key(e2, mk) == a.key_values);
}

/// A pair comes back: the entity the rollback leaves at its new position is
/// the old one, once the marker is out.
pub(crate) proof fn lemma_pair_back(
    o: MapView,
    w: MapView,
    me: Matching,
    mh: Matching,
    ops: Seq<OpView>,
    marks: Seq<MarkView>,
    ix: Seq<(Seq<char>, Bucket, int)>,
    c: MapView,
    mk: Seq<char>,
    b: Bucket,
    k: int,
)
    requires
        proper(matching_for(me, mh, b), list_of(o, b).len() as int, list_of(w, b).len() as int),
        map_marks(marks, o, w, me, mh),
        index_agrees(ix, marks),
        journal_agrees(ops, marks, o, w, me, mh),
        stamped_list(list_of(c, b), list_of(w, b), marks, b, mk, ops),
        pairs_in_place(list_of(o, b), list_of(w, b), matching_for(me, mh, b), mk),
        0 <= k < matching_for(me, mh, b).pairs@.len(),
    ensures
        ({
            let p = matching_for(me, mh, b).pairs@[k];
            unstamped(rolled_back(list_of(c, b)[p.new as int], ops_at(ops, ix, b, p.new as int)), mk) == list_of(o, b)[p.old as int]
        }),
{
    reveal(map_marks);
    let m = matching_for(me, mh, b);
    let (ol, wl, cl) = (list_of(o, b), list_of(w, b), list_of(c, b));
    lemma_proper_pairs(m, ol.len() as int, wl.len() as int);
    lemma_proper_created(m, ol.len() as int, wl.len() as int);
    lemma_partner(m, ol.len() as int, wl.len() as int, k);
    let (i, j) = (m.pairs@[k].old as int, m.pairs@[k].new as int);
    assert(kept_in_place(ol[i], wl[j], mk) && wl[j].visgroup_ids == ol[i].visgroup_ids);
    if active(ol, wl, m, k) {
        assert(marked_spot(ol, wl, m, j));
        let q = choose|q: int| #[trigger] sits(marks, q, b, j);
        let t = marks[q].token;
        assert(token_at(ix, b, j) == Some(t));
        assert(ops_at(ops, ix, b, j) == stamp(pair_ops(ol[i], wl[j]), t));
        lemma_pair_creates_nothing(ops, ol[i], wl[j], t);
        assert(cl[j] == stamped_entity(wl[j], mk, t));
        lemma_entity_round_trip(ol[i], wl[j], mk, t);
    } else {
        assert forall|q: int| !#[trigger] sits(marks, q, b, j) by {
            if sits(marks, q, b, j) {
                assert(marked_spot(ol, wl, m, j));
                if exists|k2: int| 0 <= k2 < m.pairs@.len() && m.pairs@[k2].new == j && active(ol, wl, m, k2) {
                    let k2 = choose|k2: int| 0 <= k2 < m.pairs@.len() && m.pairs@[k2].new == j && active(ol, wl, m, k2);
                    if k2 < k {
                        assert(m.pairs@[k2].new < m.pairs@[k].new);
                    } else if k < k2 {
                        assert(m.pairs@[k].new < m.pairs@[k2].new);
                    }
                } else {
                    let r = choose|r: int| 0 <= r < m.only_new@.len() && m.only_new@[r] as int == j;
                    assert(!new_paired(m, m.only_new@[r] as int));
                    assert(new_paired(m, j));
                }
            }
        }
        assert(token_at(ix, b, j) is None);
        assert(ops_at(ops, ix, b, j) == Seq::<OpView>::empty());
        assert(cl[j] == wl[j]);
        lemma_rollback_nothing(wl[j]);
        let t = Seq::<char>::empty();
        lemma_entity_round_trip(ol[i], wl[j], mk, t);
        assert(stamp(pair_ops(ol[i], wl[j]), t) =~= Seq::<OpView>::empty());
        lemma_rollback_nothing(stamped_entity(wl[j], mk, t));
        lemma_unstamp_fresh(wl[j], mk, t);
    }
}

proof fn lemma_strip_kept(r: Seq<EntityView>, gone: spec_fn(int) -> bool, mk: Seq<char>, i: int)
    requires
        0 <= i,
    ensures
        stripped(kept_from(r, gone, i), mk) == kept_from(stripped(r, mk), gone, i),
    decreases r.len() - i,
{
    if i < r.len() {
        lemma_strip_kept(r, gone, mk, i + 1);
        let rest = kept_from(r, gone, i + 1);
        if !gone(i) {
            assert(stripped(seq![r[i]] + rest, mk) =~= seq![stripped(r, mk)[i]] + stripped(rest, mk));
        }
    } else {
        assert(stripped(Seq::<EntityView>::empty(), mk) =~= Seq::<EntityView>::empty());
    }
}

proof fn lemma_strip_insert_all(list: Seq<EntityView>, rs: Seq<(nat, EntityView)>, mk: Seq<char>)
    requires
        forall|r: int| 0 <= r < rs.len() ==> !has_key((#[trigger] rs[r]).1.key_values, mk),
    ensures
        stripped(insert_all(list, rs), mk) == insert_all(stripped(list, mk), rs),
    decreases rs.len(),
{
    if rs.len() > 0 {
        lemma_strip_insert_all(list, rs.drop_last(), mk);
        let prev = insert_all(list, rs.drop_last());
        let (idx, e) = rs.last();
        assert(!has_key(rs[rs.len() - 1].1.key_values, mk));
        let at = if idx < prev.len() {
            idx as int
        } else {
            prev.len() as int
        };
        assert(stripped(prev.insert(at, e), mk) =~= stripped(prev, mk).insert(at, e));
    }
}

/// A list comes back: rolling back the compiled list gives the list as it was
/// before the tool ran.
pub(crate) proof fn lemma_list_back(
    o: MapView,
    w: MapView,
    me: Matching,
    mh: Matching,
    ops: Seq<OpView>,
    marks: Seq<MarkView>,
    ix: Seq<(Seq<char>, Bucket, int)>,
    c: MapView,
    mk: Seq<char>,
    b: Bucket,
)
    requires
        proper(matching_for(me, mh, b), list_of(o, b).len() as int, list_of(w, b).len() as int),
        map_marks(marks, o, w, me, mh),
        index_agrees(ix, marks),
        journal_agrees(ops, marks, o, w, me, mh),
        stamped_list(list_of(c, b), list_of(w, b), marks, b, mk, ops),
        pairs_in_place(list_of(o, b), list_of(w, b), matching_for(me, mh, b), mk),
        forall|i: int| 0 <= i < list_of(o, b).len() ==> !has_key(#[trigger] list_of(o, b)[i].key_values, mk),
        removals_of(ops, b) == deleted_list(list_of(o, b), matching_for(me, mh, b)),
    ensures
        rolled_back_list(list_of(c, b), ops, ix, b, mk) == list_of(o, b),
{
    let m = matching_for(me, mh, b);
    let (ol, wl, cl) = (list_of(o, b), list_of(w, b), list_of(c, b));
    let np = m.pairs@.len();
    let oo = m.only_old@;
    lemma_proper_pairs(m, ol.len() as int, wl.len() as int);
    lemma_proper_created(m, ol.len() as int, wl.len() as int);
    lemma_proper_deleted(m, ol.len() as int, wl.len() as int);
    let rl = rolled_list(cl, ops, ix, b);
    let sr = stripped(rl, mk);
    let gone = created(ops, ix, b);
    let pn = Seq::new(np, |x: int| m.pairs@[x].new as int);
    let po = Seq::new(np, |x: int| m.pairs@[x].old as int);
    // the positions the rollback keeps, on the new side
    assert(enumerates(pn, sr.len() as int, gone)) by {
        assert forall|x: int| 0 <= x < pn.len() implies 0 <= #[trigger] pn[x] < sr.len() && !gone(pn[x]) by {
            lemma_created_spots(o, w, me, mh, ops, marks, ix, b, pn[x]);
            if new_created(m, pn[x]) {
                let r = choose|r: int| 0 <= r < m.only_new@.len() && m.only_new@[r] as int == pn[x];
                assert(!new_paired(m, m.only_new@[r] as int));
                assert(new_paired(m, pn[x]));
            }
        }
        assert forall|j: int| 0 <= j < sr.len() && !#[trigger] gone(j) implies exists|x: int| 0 <= x < pn.len() && #[trigger] pn[x] == j by {
            lemma_created_spots(o, w, me, mh, ops, marks, ix, b, j);
            assert(new_paired(m, j));
            let x = choose|x: int| 0 <= x < m.pairs@.len() && m.pairs@[x].new == j;
            assert(pn[x] == j);
        }
    }
    lemma_kept_enumerated(sr, gone, pn);
    assert forall|x: int| 0 <= x < np implies sr[pn[x]] == #[trigger] ol[po[x]] by {
        lemma_pair_back(o, w, me, mh, ops, marks, ix, c, mk, b, x);
    }
    let kept = Seq::new(np, |x: int| ol[po[x]]);
    assert(kept_from(sr, gone, 0) == kept);
    // the positions it keeps, on the old side
    let listed = listed_from(oo, 0);
    assert(enumerates(po, ol.len() as int, listed)) by {
        assert forall|x: int| 0 <= x < po.len() implies 0 <= #[trigger] po[x] < ol.len() && !listed(po[x]) by {
            if listed(po[x]) {
                let t = choose|t: int| 0 <= t < oo.len() && #[trigger] oo[t] as int == po[x];
                assert(!old_paired(m, oo[t] as int));
                assert(old_paired(m, po[x]));
            }
        }
        assert forall|i: int| 0 <= i < ol.len() && !#[trigger] listed(i) implies exists|x: int| 0 <= x < po.len() && #[trigger] po[x] == i by {
            if !old_paired(m, i) {
                assert(old_dropped(m, i));
                let r = choose|r: int| 0 <= r < oo.len() && oo[r] as int == i;
                assert(listed(i));
            }
            let x = choose|x: int| 0 <= x < m.pairs@.len() && m.pairs@[x].old == i;
            assert(po[x] == i);
        }
    }
    lemma_kept_enumerated(ol, listed, po);
    assert(ascending_in(oo, ol.len() as int));
    lemma_merge(ol, oo);
    assert(taken_out(ol, oo) =~= deleted_list(ol, m));
    // the marker goes after the deleted entities are back, and they never had one
    let kr = kept_from(rl, gone, 0);
    lemma_restored_is_insert_all(kr, ops, b);
    assert forall|r: int| 0 <= r < deleted_list(ol, m).len() implies !has_key((#[trigger] deleted_list(ol, m)[r]).1.key_values, mk) by {
        assert(deleted_list(ol, m)[r].1 == ol[oo[r] as int]);
    }
    lemma_strip_insert_all(kr, deleted_list(ol, m), mk);
    lemma_strip_kept(rl, gone, mk, 0);
}

// ---------------------------------------------------------------------------
// Nothing stands in the rollback's way.
// ---------------------------------------------------------------------------

proof fn lemma_before_hold(b: Entries, a: Entries, n: int, k: int)
    requires
        0 <= n <= b.len(),
        0 <= k < undo_before(b, a, n).len(),
    ensures
        match undo_before(b, a, n)[k] {
            OpView::Change { key, new, .. } => lookup(a, key) == Some(new),
            OpView::Remove { key, .. } => has_key(b, key) && lookup(a, key) is None,
            _ => false,
        },
    decreases n,
{
    let prev = undo_before(b, a, n - 1);
    if k < prev.len() {
        lemma_before_hold(b, a, n - 1, k);
        assert(undo_before(b, a, n)[k] == prev[k]);
    } else {
        assert(undo_before(b, a, n)[k] == undo_entry(b, a, n - 1)[k - prev.len()]);
        assert(key_at(b, b[n - 1].0, n - 1));
    }
}

proof fn lemma_after_hold(b: Entries, a: Entries, n: int, k: int)
    requires
        distinct_keys(a),
        0 <= n <= a.len(),
        0 <= k < undo_after(b, a, n).len(),
    ensures
        match undo_after(b, a, n)[k] {
            OpView::Add { key, new, .. } => lookup(a, key) == Some(new),
            _ => false,
        },
    decreases n,
{
    let prev = undo_after(b, a, n - 1);
    if k < prev.len() {
        lemma_after_hold(b, a, n - 1, k);
    } else {
        lemma_key_pos_unique(a, a[n - 1].0, n - 1);
    }
}

/// What each keyvalue operation of a diff says of the keyvalues it was taken
/// from.
proof fn lemma_kv_ops_hold(b: Entries, a: Entries, k: int)
    requires
        distinct_keys(a),
        0 <= k < keyvalue_diff(b, a).len(),
    ensures
        match keyvalue_diff(b, a)[k] {
            OpView::Change { key, new, .. } => lookup(a, key) == Some(new),
            OpView::Add { key, new, .. } => lookup(a, key) == Some(new),
            OpView::Remove { key, .. } => has_key(b, key) && lookup(a, key) is None,
            _ => false,
        },
{
    let ub = undo_before(b, a, b.len() as int);
    if k < ub.len() {
        lemma_before_hold(b, a, b.len() as int, k);
        assert(keyvalue_diff(b, a)[k] == ub[k]);
    } else {
        lemma_after_hold(b, a, a.len() as int, k - ub.len());
        assert(keyvalue_diff(b, a)[k] == undo_after(b, a, a.len() as int)[k - ub.len()]);
    }
}

/// Operation `k` of the journal finds the compiled map as the tool left it.
pub(crate) proof fn lemma_no_collision(
    o: MapView,
    w: MapView,
    me: Matching,
    mh: Matching,
    ops: Seq<OpView>,
    marks: Seq<MarkView>,
    ix: Seq<(Seq<char>, Bucket, int)>,
    c: MapView,
    mk: Seq<char>,
    k: int,
)
    requires
        proper(me, o.entities.len() as int, w.entities.len() as int),
        proper(mh, o.hiddens.len() as int, w.hiddens.len() as int),
        map_marks(marks, o, w, me, mh),
        index_agrees(ix, marks),
        journal_agrees(ops, marks, o, w, me, mh),
        stamped_list(c.entities, w.entities, marks, Bucket::Entity, mk, ops),
        stamped_list(c.hiddens, w.hiddens, marks, Bucket::Hidden, mk, ops),
        pairs_in_place(o.entities, w.entities, me, mk),
        pairs_in_place(o.hiddens, w.hiddens, mh, mk),
        0 <= k < ops.len(),
    ensures
        collision_of(c, ix, ops[k]) == Seq::<CollisionView>::empty(),
{
    if !(ops[k] is RemoveEntity) {
        reveal(map_marks);
        let q = choose|q: int| 0 <= q < marks.len() && marks[q].token == ops[k].at();
        let t = ops[k].at();
        let (b, j) = (marks[q].bucket, marks[q].idx as int);
        let m = matching_for(me, mh, b);
        let (ol, wl, cl) = (list_of(o, b), list_of(w, b), list_of(c, b));
        assert(list_of(o, Bucket::Entity) == o.entities && list_of(w, Bucket::Entity) == w.entities);
        assert(list_of(o, Bucket::Hidden) == o.hiddens && list_of(w, Bucket::Hidden) == w.hiddens);
        assert(list_of(c, Bucket::Entity) == c.entities && list_of(c, Bucket::Hidden) == c.hiddens);
        assert(matching_for(me, mh, Bucket::Entity) == me && matching_for(me, mh, Bucket::Hidden) == mh);
        assert(located(ix, t) == Some((b, j)));
        assert(j < wl.len());
        assert(entity_at(c, b, j) == Some(cl[j]));
        assert(sits(marks, q, b, j));
        let r = lemma_for_token_has(ops, t, k);
        match partner(m, j) {
            Some(i) => {
                let kk = choose|kk: int| 0 <= kk < m.pairs@.len() && m.pairs@[kk].new == j;
                assert(i == m.pairs@[kk].old);
                assert(kept_in_place(ol[i], wl[j], mk));
                let (bk, ak) = (ol[i].key_values, wl[j].key_values);
                lemma_put_fresh(ak, mk, t);
                assert(cl[j].key_values == ak.push((mk, t)));
                assert(expected(o, w, me, mh, marks[q]) == stamp(pair_ops(ol[i], wl[j]), t));
                lemma_pair_kinds(ol[i], wl[j], t, r);
                let kd = keyvalue_diff(bk, ak);
                if r < kd.len() {
                    assert(pair_ops(ol[i], wl[j])[r] == kd[r]);
                    lemma_kv_ops_hold(bk, ak, r);
                    match kd[r] {
                        OpView::Change { key, new, .. } => {
                            lemma_lookup_push(ak, key, (mk, t));
                        },
                        OpView::Add { key, new, .. } => {
                            lemma_lookup_push(ak, key, (mk, t));
                        },
                        OpView::Remove { key, .. } => {
                            lemma_lookup_push(ak, key, (mk, t));
                        },
                        _ => {},
                    }
                }
            },
            None => {},
        }
    }
}

proof fn lemma_collisions_none(map: MapView, ix: Seq<(Seq<char>, Bucket, int)>, ops: Seq<OpView>)
    requires
        forall|k: int| 0 <= k < ops.len() ==> collision_of(map, ix, #[trigger] ops[k]) == Seq::<CollisionView>::empty(),
    ensures
        collisions_in(map, ix, ops) == Seq::<CollisionView>::empty(),
    decreases ops.len(),
{
    if ops.len() > 0 {
        assert(collision_of(map, ix, ops[ops.len() - 1]) == Seq::<CollisionView>::empty());
        lemma_collisions_none(map, ix, ops.drop_last());
        assert(Seq::<CollisionView>::empty() + Seq::<CollisionView>::empty() =~= Seq::<CollisionView>::empty());
    }
}

/// The journal's operations all find the compiled map as the tool left it.
pub(crate) proof fn lemma_no_collisions(
    o: MapView,
    w: MapView,
    me: Matching,
    mh: Matching,
    ops: Seq<OpView>,
    marks: Seq<MarkView>,
    ix: Seq<(Seq<char>, Bucket, int)>,
    c: MapView,
    mk: Seq<char>,
)
    requires
        proper(me, o.entities.len() as int, w.entities.len() as int),
        proper(mh, o.hiddens.len() as int, w.hiddens.len() as int),
        map_marks(marks, o, w, me, mh),
        index_agrees(ix, marks),
        journal_agrees(ops, marks, o, w, me, mh),
        stamped_list(c.entities, w.entities, marks, Bucket::Entity, mk, ops),
        stamped_list(c.hiddens, w.hiddens, marks, Bucket::Hidden, mk, ops),
        pairs_in_place(o.entities, w.entities, me, mk),
        pairs_in_place(o.hiddens, w.hiddens, mh, mk),
    ensures
        collisions_in(c, ix, ops) == Seq::<CollisionView>::empty(),
{
    assert forall|k: int| 0 <= k < ops.len() implies collision_of(c, ix, #[trigger] ops[k]) == Seq::<CollisionView>::empty() by {
        lemma_no_collision(o, w, me, mh, ops, marks, ix, c, mk, k);
    }
    lemma_collisions_none(c, ix, ops);
}

// ---------------------------------------------------------------------------
// A compiled map rolls back.
// ---------------------------------------------------------------------------

/// The lists a finished edit leaves carry the diff's marks.
pub(crate) proof fn lemma_finished_stamped(
    w: MapView,
    d: crate::diff::DiffView,
    opts: crate::LedgerOptions,
    c: MapView,
    journal: crate::sidecar::Journal,
)
    requires
        finished(w, d, opts, c, journal),
        marks_apart(d.marks),
    ensures
        stamped_list(c.entities, w.entities, d.marks, Bucket::Entity, opts.marker_key@, d.ops),
        stamped_list(c.hiddens, w.hiddens, d.marks, Bucket::Hidden, opts.marker_key@, d.ops),
{
    let mk = opts.marker_key@;
    match group_for(w.rest, opts.visgroup, d.ops) {
        None => {
            lemma_stamped_plain(w.entities, d.marks, Bucket::Entity, mk, d.ops);
            lemma_stamped_plain(w.hiddens, d.marks, Bucket::Hidden, mk, d.ops);
        },
        Some((id, made)) => {
            lemma_stamped_joined(w.entities, d.marks, Bucket::Entity, mk, d.ops, id);
            lemma_stamped_joined(w.hiddens, d.marks, Bucket::Hidden, mk, d.ops, id);
        },
    }
}

/// The journal of a compile whose matchings are proper and which left nothing
/// untracked, replayed on the map it produced: the markers are distinct and
/// where the journal expects them, nothing stands in the way, and both entity
/// lists come back as they were.
pub(crate) proof fn lemma_compiled_rolls_back(
    o: MapView,
    w: MapView,
    me: Matching,
    mh: Matching,
    c: MapView,
    mk: Seq<char>,
)
    requires
        proper(me, o.entities.len() as int, w.entities.len() as int),
        proper(mh, o.hiddens.len() as int, w.hiddens.len() as int),
        map_diff(o, w, me, mh).untracked.len() == 0,
        pairs_in_place(o.entities, w.entities, me, mk),
        pairs_in_place(o.hiddens, w.hiddens, mh, mk),
        unmarked(o, mk),
        keys_distinct(w),
        marks_apart(map_diff(o, w, me, mh).marks) ==> {
            &&& stamped_list(c.entities, w.entities, map_diff(o, w, me, mh).marks, Bucket::Entity, mk, map_diff(o, w, me, mh).ops)
            &&& stamped_list(c.hiddens, w.hiddens, map_diff(o, w, me, mh).marks, Bucket::Hidden, mk, map_diff(o, w, me, mh).ops)
        },
    ensures
        ({
            let d = map_diff(o, w, me, mh);
            let ix = marker_index(c, mk);
            &&& tokens_distinct(ix)
            &&& collisions_in(c, ix, d.ops) == Seq::<CollisionView>::empty()
            &&& rolled_back_list(c.entities, d.ops, ix, Bucket::Entity, mk) == o.entities
            &&& rolled_back_list(c.hiddens, d.ops, ix, Bucket::Hidden, mk) == o.hiddens
        }),
{
    let d = map_diff(o, w, me, mh);
    let d1 = bucket_diff((empty_diff(), 0), Bucket::Entity, o.entities, w.entities, me);
    let d2 = bucket_diff(d1, Bucket::Hidden, o.hiddens, w.hiddens, mh);
    lemma_map(o, w, me, mh);
    let (ops, marks) = (d.ops, d.marks);
    lemma_map_marks(marks, d1.0.marks.len() as int, o, w, me, mh);
    assert(journal_agrees(ops, marks, o, w, me, mh) && forall|q1: int, q2: int|
        0 <= q1 < marks.len() && 0 <= q2 < marks.len() && q1 != q2 ==> marks[q1].token != marks[q2].token) by {
        reveal(sound);
    }
    assert(marks_apart(marks) && forall|q: int| 0 <= q < marks.len() ==> (#[trigger] marks[q]).idx < list_of(
        w,
        marks[q].bucket,
    ).len()) by {
        reveal(map_marks);
    }
    lemma_marked(o, w, me, mh, c, marks, mk, ops);
    lemma_index(c, marks, mk);
    let ix = marker_index(c, mk);
    assert(index_agrees(ix, marks));
    lemma_no_collisions(o, w, me, mh, ops, marks, ix, c, mk);
    assert(list_of(o, Bucket::Entity) == o.entities && list_of(w, Bucket::Entity) == w.entities);
    assert(list_of(o, Bucket::Hidden) == o.hiddens && list_of(w, Bucket::Hidden) == w.hiddens);
    assert(list_of(c, Bucket::Entity) == c.entities && list_of(c, Bucket::Hidden) == c.hiddens);
    assert(matching_for(me, mh, Bucket::Entity) == me && matching_for(me, mh, Bucket::Hidden) == mh);
    lemma_list_back(o, w, me, mh, ops, marks, ix, c, mk, Bucket::Entity);
    lemma_list_back(o, w, me, mh, ops, marks, ix, c, mk, Bucket::Hidden);
}

} // verus!
