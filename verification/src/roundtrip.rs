//! Compiling a map and rolling it back lands on the map as it was.
//!
//! The journal a finished edit writes, replayed against the map that edit
//! produced, gives back the pristine entity lists and `world` keyvalues, as long
//! as the tool did not touch what the ledger does not model and kept the keys it
//! kept in their order.

use vstd::prelude::*;

use crate::diff::{
    body_notes, bucket_diff, empty_diff, map_diff, section_notes, diff_added, diff_pair, diff_pairs, diff_removed, keyvalue_diff, pair_ops, pairs_of, positions,
    undo_after, undo_before, undo_entry, weak_note, DiffView, MarkView,
};
use crate::matching::{Confidence, Matching};
use crate::ops::Bucket;
use crate::rollback::for_token;
use crate::edit::{creates, join_created, joined, stamp_marks, with_key_values, with_visgroups};
use crate::kv::{distinct_keys, has_key, key_at, key_pos, keys_of, lemma_key_pos_unique, lookup, Entries};
use crate::model::{ConnectionView, EntityView, MapView};
use crate::ops::{written, OpView};
use crate::rollback::{
    lemma_index_wf, lemma_marks_bounds, located, marker_index, marks_in, positions_distinct, restored_entities,
    rolled_back, token_at, tokens_distinct, undo_connections,
};
use crate::text::{decimal, digit};
use crate::undo::{
    also_in, drop_key, law_keyvalues_roll_back, lemma_pick_ext, pick, put, rollback_keyvalues, shared_in_order,
    sorted_removals, stamp, undo_additions, undo_changes, undo_removals,
};

verus! {

// ---------------------------------------------------------------------------
// Tokens are distinct.
// ---------------------------------------------------------------------------

pub(crate) proof fn lemma_digit_injective(a: nat, b: nat)
    requires
        a < 10,
        b < 10,
        digit(a) == digit(b),
    ensures
        a == b,
{
    assert(digit(a) as nat == 48 + a);
    assert(digit(b) as nat == 48 + b);
}

pub(crate) proof fn lemma_decimal_len(n: nat)
    ensures
        decimal(n).len() >= 1,
        decimal(n).len() == 1 <==> n < 10,
    decreases n,
{
    if n >= 10 {
        lemma_decimal_len(n / 10);
    }
}

/// Different counts are written differently.
pub proof fn lemma_decimal_injective(a: nat, b: nat)
    requires
        decimal(a) == decimal(b),
    ensures
        a == b,
    decreases a,
{
    lemma_decimal_len(a);
    lemma_decimal_len(b);
    if a < 10 && b < 10 {
        assert(decimal(a)[0] == digit(a));
        assert(decimal(b)[0] == digit(b));
        lemma_digit_injective(a, b);
    } else if a >= 10 && b >= 10 {
        let (da, db) = (decimal(a), decimal(b));
        assert(da.last() == digit(a % 10));
        assert(db.last() == digit(b % 10));
        lemma_digit_injective(a % 10, b % 10);
        assert(da.drop_last() == decimal(a / 10));
        assert(db.drop_last() == decimal(b / 10));
        lemma_decimal_injective(a / 10, b / 10);
    }
}

// ---------------------------------------------------------------------------
// One entity comes back.
// ---------------------------------------------------------------------------

/// What the ledger needs of an entity the tool kept, `b` before and `a` after:
/// keys that occur once, the kept keys in their order, no marker key yet,
/// connections in the form the file writes them, and the parts the ledger does
/// not model left as they were.
pub open spec fn kept_in_place(b: EntityView, a: EntityView, mk: Seq<char>) -> bool {
    &&& distinct_keys(b.key_values)
    &&& distinct_keys(a.key_values)
    &&& shared_in_order(b.key_values, a.key_values)
    &&& !has_key(b.key_values, mk)
    &&& !has_key(a.key_values, mk)
    &&& written(b.connections) == b.connections
    &&& written(a.connections) == a.connections
    &&& a.body == b.body
}

/// An entity with the marker `mk` stamped in, carrying `t`.
pub open spec fn stamped_entity(a: EntityView, mk: Seq<char>, t: Seq<char>) -> EntityView {
    with_key_values(a, put(a.key_values, mk, t))
}

/// An entity with the marker `mk` taken out.
pub open spec fn unstamped(e: EntityView, mk: Seq<char>) -> EntityView {
    with_key_values(e, drop_key(e.key_values, mk))
}

pub(crate) proof fn lemma_lookup_push(e: Entries, k: Seq<char>, m: (Seq<char>, Seq<char>))
    requires
        distinct_keys(e),
        !has_key(e, m.0),
    ensures
        distinct_keys(e.push(m)),
        k != m.0 ==> has_key(e.push(m), k) == has_key(e, k) && lookup(e.push(m), k) == lookup(e, k),
        has_key(e.push(m), m.0) && key_pos(e.push(m), m.0) == e.len() && lookup(e.push(m), m.0) == Some(m.1),
{
    let e2 = e.push(m);
    assert(distinct_keys(e2)) by {
        assert forall|i: int, j: int| 0 <= i < e2.len() && 0 <= j < e2.len() && i != j implies e2[i].0 != e2[j].0 by {
            if i == e.len() {
                assert(!key_at(e, m.0, j));
            } else if j == e.len() {
                assert(!key_at(e, m.0, i));
            }
        }
    }
    lemma_key_pos_unique(e2, m.0, e.len() as int);
    if k != m.0 {
        if has_key(e, k) {
            let p = choose|p: int| key_at(e, k, p);
            lemma_key_pos_unique(e, k, p);
            lemma_key_pos_unique(e2, k, p);
        }
        if has_key(e2, k) {
            let p = choose|p: int| key_at(e2, k, p);
            assert(key_at(e, k, p));
        }
    }
}

pub(crate) proof fn lemma_undo_before_push(b: Entries, a: Entries, m: (Seq<char>, Seq<char>), n: int)
    requires
        distinct_keys(a),
        !has_key(a, m.0),
        0 <= n <= b.len(),
        forall|i: int| 0 <= i < b.len() ==> b[i].0 != m.0,
    ensures
        undo_before(b.push(m), a.push(m), n) == undo_before(b, a, n),
    decreases n,
{
    if n > 0 {
        lemma_undo_before_push(b, a, m, n - 1);
        lemma_lookup_push(a, b[n - 1].0, m);
        assert(undo_entry(b.push(m), a.push(m), n - 1) == undo_entry(b, a, n - 1));
    }
}

pub(crate) proof fn lemma_undo_after_push(b: Entries, a: Entries, m: (Seq<char>, Seq<char>), n: int)
    requires
        distinct_keys(b),
        !has_key(b, m.0),
        0 <= n <= a.len(),
        forall|i: int| 0 <= i < a.len() ==> a[i].0 != m.0,
    ensures
        undo_after(b.push(m), a.push(m), n) == undo_after(b, a, n),
    decreases n,
{
    if n > 0 {
        lemma_undo_after_push(b, a, m, n - 1);
        lemma_lookup_push(b, a[n - 1].0, m);
    }
}

pub(crate) proof fn lemma_keyvalue_diff_push(b: Entries, a: Entries, m: (Seq<char>, Seq<char>))
    requires
        distinct_keys(b),
        distinct_keys(a),
        !has_key(b, m.0),
        !has_key(a, m.0),
    ensures
        keyvalue_diff(b.push(m), a.push(m)) == keyvalue_diff(b, a),
{
    assert forall|i: int| 0 <= i < b.len() implies b[i].0 != m.0 by {
        assert(!key_at(b, m.0, i));
    }
    assert forall|i: int| 0 <= i < a.len() implies a[i].0 != m.0 by {
        assert(!key_at(a, m.0, i));
    }
    let (b2, a2) = (b.push(m), a.push(m));
    lemma_undo_before_push(b, a, m, b.len() as int);
    lemma_lookup_push(a, m.0, m);
    assert(undo_entry(b2, a2, b.len() as int) =~= Seq::<OpView>::empty());
    assert(undo_before(b2, a2, b2.len() as int) =~= undo_before(b, a, b.len() as int));
    lemma_undo_after_push(b, a, m, a.len() as int);
    lemma_lookup_push(b, m.0, m);
    assert(has_key(b2, a2[a.len() as int].0));
    assert(undo_after(b2, a2, a2.len() as int) == undo_after(b, a, a.len() as int));
}

pub(crate) proof fn lemma_pick_push_prefix(s: Entries, x: (Seq<char>, Seq<char>), keep: spec_fn(int) -> bool, n: int)
    requires
        0 <= n <= s.len(),
    ensures
        pick(s.push(x), keep, n) == pick(s, keep, n),
    decreases n,
{
    if n > 0 {
        lemma_pick_push_prefix(s, x, keep, n - 1);
    }
}

pub(crate) proof fn lemma_shared_push(b: Entries, a: Entries, m: (Seq<char>, Seq<char>))
    requires
        distinct_keys(b),
        distinct_keys(a),
        !has_key(b, m.0),
        !has_key(a, m.0),
        shared_in_order(b, a),
    ensures
        shared_in_order(b.push(m), a.push(m)),
{
    let (b2, a2) = (b.push(m), a.push(m));
    assert forall|i: int| 0 <= i < a.len() implies #[trigger] also_in(a2, b2)(i) == also_in(a, b)(i) by {
        assert(!key_at(a, m.0, i));
        lemma_lookup_push(b, a[i].0, m);
    }
    assert forall|i: int| 0 <= i < b.len() implies #[trigger] also_in(b2, a2)(i) == also_in(b, a)(i) by {
        assert(!key_at(b, m.0, i));
        lemma_lookup_push(a, b[i].0, m);
    }
    lemma_lookup_push(a, m.0, m);
    lemma_lookup_push(b, m.0, m);
    lemma_pick_push_prefix(a, m, also_in(a2, b2), a.len() as int);
    lemma_pick_ext(a, also_in(a2, b2), also_in(a, b), a.len() as int);
    lemma_pick_push_prefix(b, m, also_in(b2, a2), b.len() as int);
    lemma_pick_ext(b, also_in(b2, a2), also_in(b, a), b.len() as int);
    assert(also_in(a2, b2)(a.len() as int));
    assert(also_in(b2, a2)(b.len() as int));
    let pa = pick(a, also_in(a, b), a.len() as int);
    let pb = pick(b, also_in(b, a), b.len() as int);
    assert(pick(a2, also_in(a2, b2), a2.len() as int) == pa.push(m));
    assert(pick(b2, also_in(b2, a2), b2.len() as int) == pb.push(m));
    assert(keys_of(pa.push(m)) =~= keys_of(pa).push(m.0));
    assert(keys_of(pb.push(m)) =~= keys_of(pb).push(m.0));
}

/// Operations other than keyvalue ones leave a keyvalue rollback alone.
pub(crate) proof fn lemma_rollback_kv_skip(e: Entries, ops: Seq<OpView>, x: OpView)
    requires
        !(x is Change),
        !(x is Add),
        !(x is Remove),
    ensures
        rollback_keyvalues(e, ops.push(x)) == rollback_keyvalues(e, ops),
{
    assert(ops.push(x).drop_last() =~= ops);
    assert(undo_changes(e, ops.push(x)) == undo_changes(e, ops));
    assert(undo_additions(undo_changes(e, ops), ops.push(x)) == undo_additions(undo_changes(e, ops), ops));
    assert(sorted_removals(ops.push(x)) == sorted_removals(ops));
}

/// No connection operation among `ops`: the connections stay.
pub(crate) proof fn lemma_undo_connections_none(c: Option<Seq<ConnectionView>>, ops: Seq<OpView>)
    requires
        forall|k: int| 0 <= k < ops.len() ==> !(#[trigger] ops[k] is Connections),
    ensures
        undo_connections(c, ops) == c,
    decreases ops.len(),
{
    if ops.len() > 0 {
        assert(!(ops[ops.len() - 1] is Connections));
        lemma_undo_connections_none(c, ops.drop_last());
    }
}

pub(crate) proof fn lemma_keyvalue_ops_kinds(b: Entries, a: Entries)
    ensures
        forall|k: int| 0 <= k < keyvalue_diff(b, a).len() ==> {
            let o = #[trigger] keyvalue_diff(b, a)[k];
            o is Change || o is Add || o is Remove
        },
{
    lemma_before_kinds(b, a, b.len() as int);
    lemma_after_kinds(b, a, a.len() as int);
}

pub(crate) proof fn lemma_before_kinds(b: Entries, a: Entries, n: int)
    ensures
        forall|k: int| 0 <= k < undo_before(b, a, n).len() ==> {
            let o = #[trigger] undo_before(b, a, n)[k];
            o is Change || o is Add || o is Remove
        },
    decreases n,
{
    if n > 0 {
        lemma_before_kinds(b, a, n - 1);
        let prev = undo_before(b, a, n - 1);
        let e = undo_entry(b, a, n - 1);
        assert forall|k: int| 0 <= k < undo_before(b, a, n).len() implies {
            let o = #[trigger] undo_before(b, a, n)[k];
            o is Change || o is Add || o is Remove
        } by {
            if k < prev.len() {
                assert(undo_before(b, a, n)[k] == prev[k]);
            } else {
                assert(undo_before(b, a, n)[k] == e[k - prev.len()]);
            }
        }
    }
}

pub(crate) proof fn lemma_after_kinds(b: Entries, a: Entries, n: int)
    ensures
        forall|k: int| 0 <= k < undo_after(b, a, n).len() ==> (#[trigger] undo_after(b, a, n)[k]) is Add,
    decreases n,
{
    if n > 0 {
        lemma_after_kinds(b, a, n - 1);
    }
}

/// An entity the tool edited, stamped with its marker and rolled back with the
/// operations the diff records for it, is the entity it was before the tool ran,
/// once the marker is taken out again.
pub proof fn lemma_entity_round_trip(b: EntityView, a: EntityView, mk: Seq<char>, t: Seq<char>)
    requires
        kept_in_place(b, a, mk),
        a.visgroup_ids == b.visgroup_ids,
    ensures
        unstamped(rolled_back(stamped_entity(a, mk, t), stamp(pair_ops(b, a), t)), mk) == b,
{
    let m = (mk, t);
    let kd = keyvalue_diff(b.key_values, a.key_values);
    let ops = stamp(pair_ops(b, a), t);
    lemma_lookup_push(a.key_values, mk, m);
    lemma_lookup_push(b.key_values, mk, m);
    assert(put(a.key_values, mk, t) == a.key_values.push(m));
    lemma_keyvalue_diff_push(b.key_values, a.key_values, m);
    lemma_shared_push(b.key_values, a.key_values, m);
    law_keyvalues_roll_back(b.key_values.push(m), a.key_values.push(m), t);
    lemma_keyvalue_ops_kinds(b.key_values, a.key_values);
    let e = stamped_entity(a, mk, t);
    if written(b.connections) != written(a.connections) {
        let c = OpView::Connections { at: Seq::empty(), old: written(b.connections), new: written(a.connections) };
        assert(ops =~= stamp(kd, t).push(c.with_at(t)));
        lemma_rollback_kv_skip(e.key_values, stamp(kd, t), c.with_at(t));
        assert(undo_connections(e.connections, ops) == written(b.connections));
    } else {
        assert(ops == stamp(kd, t));
        assert forall|k: int| 0 <= k < ops.len() implies !(#[trigger] ops[k] is Connections) by {
            assert(ops[k] == kd[k].with_at(t));
        }
        lemma_undo_connections_none(e.connections, ops);
    }
    let r = rolled_back(e, ops);
    assert(r.key_values == b.key_values.push(m));
    assert(drop_key(b.key_values.push(m), mk) =~= b.key_values);
}

// ---------------------------------------------------------------------------
// The operations about one token.
// ---------------------------------------------------------------------------

pub proof fn lemma_for_token_concat(a: Seq<OpView>, b: Seq<OpView>, t: Seq<char>)
    ensures
        for_token(a + b, t) == for_token(a, t) + for_token(b, t),
    decreases b.len(),
{
    if b.len() == 0 {
        assert(a + b =~= a);
        assert(for_token(a, t) + for_token(b, t) =~= for_token(a, t));
    } else {
        lemma_for_token_concat(a, b.drop_last(), t);
        assert((a + b).drop_last() =~= a + b.drop_last());
        assert((a + b).last() == b.last());
        if b.last().at() == t {
            assert(for_token(a, t) + for_token(b, t) =~= (for_token(a, t) + for_token(b.drop_last(), t)).push(
                b.last(),
            ));
        }
    }
}

pub proof fn lemma_for_token_none(a: Seq<OpView>, t: Seq<char>)
    requires
        forall|q: int| 0 <= q < a.len() ==> (#[trigger] a[q]).at() != t,
    ensures
        for_token(a, t) == Seq::<OpView>::empty(),
    decreases a.len(),
{
    if a.len() > 0 {
        assert(a[a.len() - 1].at() != t);
        lemma_for_token_none(a.drop_last(), t);
    }
}

pub proof fn lemma_for_token_all(a: Seq<OpView>, t: Seq<char>)
    requires
        forall|q: int| 0 <= q < a.len() ==> (#[trigger] a[q]).at() == t,
    ensures
        for_token(a, t) == a,
    decreases a.len(),
{
    if a.len() > 0 {
        assert(a[a.len() - 1].at() == t);
        lemma_for_token_all(a.drop_last(), t);
        assert(a.drop_last().push(a.last()) =~= a);
    }
}

pub(crate) proof fn lemma_stamp_at(x: Seq<OpView>, t: Seq<char>)
    ensures
        forall|q: int| 0 <= q < stamp(x, t).len() ==> (#[trigger] stamp(x, t)[q]).at() == t,
        stamp(x, t).len() == x.len(),
{
    assert forall|q: int| 0 <= q < stamp(x, t).len() implies (#[trigger] stamp(x, t)[q]).at() == t by {
        assert(stamp(x, t)[q] == x[q].with_at(t));
    }
}

// ---------------------------------------------------------------------------
// What the diff of a proper matching holds.
// ---------------------------------------------------------------------------

/// The entity list of `bucket`.
pub open spec fn list_of(m: MapView, bucket: Bucket) -> Seq<EntityView> {
    match bucket {
        Bucket::Entity => m.entities,
        Bucket::Hidden => m.hiddens,
    }
}

/// The matching of `bucket`.
pub open spec fn matching_for(me: Matching, mh: Matching, bucket: Bucket) -> Matching {
    match bucket {
        Bucket::Entity => me,
        Bucket::Hidden => mh,
    }
}

/// The old partner of new entity `j`, if it has one.
pub open spec fn partner(m: Matching, j: int) -> Option<int> {
    if exists|k: int| 0 <= k < m.pairs@.len() && m.pairs@[k].new == j {
        Some(m.pairs@[choose|k: int| 0 <= k < m.pairs@.len() && m.pairs@[k].new == j].old as int)
    } else {
        None
    }
}

/// The journal operations a mark should carry: those of the pair it stands
/// for, or the creation of the entity it sits on.
pub open spec fn expected(o: MapView, w: MapView, me: Matching, mh: Matching, mv: MarkView) -> Seq<OpView> {
    match partner(matching_for(me, mh, mv.bucket), mv.idx as int) {
        Some(i) => stamp(
            pair_ops(list_of(o, mv.bucket)[i], list_of(w, mv.bucket)[mv.idx as int]),
            mv.token,
        ),
        None => seq![OpView::AddEntity { at: mv.token, bucket: mv.bucket }],
    }
}

/// Every operation carries a token numbered at most `c`.
pub open spec fn tokens_upto(ops: Seq<OpView>, c: nat) -> bool {
    forall|q: int| 0 <= q < ops.len() ==> exists|x: nat| 1 <= x <= c && (#[trigger] ops[q]).at() == decimal(x)
}

/// Every mark carries a token numbered at most `c`, no two the same.
pub open spec fn marks_upto(marks: Seq<MarkView>, c: nat) -> bool {
    &&& forall|k: int| 0 <= k < marks.len() ==> exists|x: nat| 1 <= x <= c && (#[trigger] marks[k]).token == decimal(x)
    &&& forall|k: int, l: int| 0 <= k < marks.len() && 0 <= l < marks.len() && k != l ==> marks[k].token != marks[l].token
}

/// The diff so far is sound: its tokens are numbered, and each mark's token
/// picks out exactly the operations the mark stands for.
#[verifier::opaque]
pub open spec fn sound(d: (DiffView, nat), o: MapView, w: MapView, me: Matching, mh: Matching) -> bool {
    &&& tokens_upto(d.0.ops, d.1)
    &&& marks_upto(d.0.marks, d.1)
    &&& forall|q: int| 0 <= q < d.0.ops.len() && !((#[trigger] d.0.ops[q]) is RemoveEntity) ==> exists|k: int|
        0 <= k < d.0.marks.len() && d.0.marks[k].token == d.0.ops[q].at()
    &&& forall|k: int| 0 <= k < d.0.marks.len() ==> for_token(d.0.ops, (#[trigger] d.0.marks[k]).token) == expected(o, w, me, mh, d.0.marks[k])
}

/// A fresh token picks out nothing yet.
pub(crate) proof fn lemma_fresh(ops: Seq<OpView>, c: nat)
    requires
        tokens_upto(ops, c),
    ensures
        for_token(ops, decimal(c + 1)) == Seq::<OpView>::empty(),
{
    assert forall|q: int| 0 <= q < ops.len() implies (#[trigger] ops[q]).at() != decimal(c + 1) by {
        let x = choose|x: nat| 1 <= x <= c && ops[q].at() == decimal(x);
        if ops[q].at() == decimal(c + 1) {
            lemma_decimal_injective(x, c + 1);
        }
    }
    lemma_for_token_none(ops, decimal(c + 1));
}

/// Appending a block with the next token keeps the diff sound, given what the
/// new mark, if any, stands for.
pub(crate) proof fn lemma_append_block(
    d: (DiffView, nat),
    block: Seq<OpView>,
    mark: Option<MarkView>,
    o: MapView,
    w: MapView,
    me: Matching,
    mh: Matching,
)
    requires
        sound(d, o, w, me, mh),
        forall|q: int| 0 <= q < block.len() ==> (#[trigger] block[q]).at() == decimal(d.1 + 1),
        mark matches Some(mv) ==> mv.token == decimal(d.1 + 1) && block == expected(o, w, me, mh, mv),
        mark is None ==> forall|q: int| 0 <= q < block.len() ==> (#[trigger] block[q]) is RemoveEntity,
    ensures
        sound(
            (
                DiffView {
                    ops: d.0.ops + block,
                    marks: match mark {
                        Some(mv) => d.0.marks.push(mv),
                        None => d.0.marks,
                    },
                    untracked: d.0.untracked,
                },
                d.1 + 1,
            ),
            o,
            w,
            me,
            mh,
        ),
{
    reveal(sound);
    let t = decimal(d.1 + 1);
    let ops2 = d.0.ops + block;
    let marks2 = match mark {
        Some(mv) => d.0.marks.push(mv),
        None => d.0.marks,
    };
    assert(tokens_upto(ops2, d.1 + 1)) by {
        assert forall|q: int| 0 <= q < ops2.len() implies exists|x: nat| 1 <= x <= d.1 + 1 && (#[trigger] ops2[q]).at() == decimal(x) by {
            if q < d.0.ops.len() {
                assert(ops2[q] == d.0.ops[q]);
                let x = choose|x: nat| 1 <= x <= d.1 && d.0.ops[q].at() == decimal(x);
                assert(1 <= x <= d.1 + 1 && ops2[q].at() == decimal(x));
            } else {
                assert(ops2[q] == block[q - d.0.ops.len()]);
                assert(ops2[q].at() == decimal(d.1 + 1));
            }
        }
    }
    lemma_fresh(d.0.ops, d.1);
    lemma_for_token_concat(d.0.ops, block, t);
    lemma_for_token_all(block, t);
    assert(for_token(ops2, t) =~= block);
    assert forall|k: int| 0 <= k < d.0.marks.len() implies for_token(ops2, (#[trigger] d.0.marks[k]).token)
        == for_token(d.0.ops, d.0.marks[k].token) by {
        let x = choose|x: nat| 1 <= x <= d.1 && d.0.marks[k].token == decimal(x);
        assert forall|q: int| 0 <= q < block.len() implies (#[trigger] block[q]).at() != d.0.marks[k].token by {
            if block[q].at() == d.0.marks[k].token {
                lemma_decimal_injective(x, d.1 + 1);
            }
        }
        lemma_for_token_concat(d.0.ops, block, d.0.marks[k].token);
        lemma_for_token_none(block, d.0.marks[k].token);
        assert(for_token(ops2, d.0.marks[k].token) =~= for_token(d.0.ops, d.0.marks[k].token));
    }
    assert forall|q: int| 0 <= q < ops2.len() && !((#[trigger] ops2[q]) is RemoveEntity) implies exists|k: int|
        0 <= k < marks2.len() && marks2[k].token == ops2[q].at() by {
        if q < d.0.ops.len() {
            assert(ops2[q] == d.0.ops[q]);
            let k = choose|k: int| 0 <= k < d.0.marks.len() && d.0.marks[k].token == d.0.ops[q].at();
            if mark is Some {
                assert(marks2[k] == d.0.marks[k]);
            }
        } else {
            assert(ops2[q] == block[q - d.0.ops.len()]);
            let mv = mark->Some_0;
            assert(marks2[marks2.len() - 1] == mv);
        }
    }
    match mark {
        None => {},
        Some(mv) => {
            assert(marks_upto(marks2, d.1 + 1)) by {
                assert forall|k: int| 0 <= k < marks2.len() implies exists|x: nat| 1 <= x <= d.1 + 1 && (#[trigger] marks2[k]).token == decimal(x) by {
                    if k < d.0.marks.len() {
                        assert(marks2[k] == d.0.marks[k]);
                        let x = choose|x: nat| 1 <= x <= d.1 && d.0.marks[k].token == decimal(x);
                        assert(1 <= x <= d.1 + 1 && marks2[k].token == decimal(x));
                    } else {
                        assert(marks2[k].token == decimal(d.1 + 1));
                    }
                }
                assert forall|k: int, l: int| 0 <= k < marks2.len() && 0 <= l < marks2.len() && k != l implies marks2[k].token != marks2[l].token by {
                    if k < d.0.marks.len() && l < d.0.marks.len() {
                        assert(marks2[k] == d.0.marks[k] && marks2[l] == d.0.marks[l]);
                    } else if k < d.0.marks.len() {
                        let x = choose|x: nat| 1 <= x <= d.1 && d.0.marks[k].token == decimal(x);
                        if marks2[k].token == marks2[l].token {
                            assert(marks2[l] == mv);
                            lemma_decimal_injective(x, d.1 + 1);
                        }
                    } else if l < d.0.marks.len() {
                        let x = choose|x: nat| 1 <= x <= d.1 && d.0.marks[l].token == decimal(x);
                        if marks2[k].token == marks2[l].token {
                            assert(marks2[k] == mv);
                            lemma_decimal_injective(x, d.1 + 1);
                        }
                    }
                }
            }
            assert forall|k: int| 0 <= k < marks2.len() implies for_token(ops2, (#[trigger] marks2[k]).token) == expected(o, w, me, mh, marks2[k]) by {
                if k < d.0.marks.len() {
                    assert(marks2[k] == d.0.marks[k]);
                } else {
                    assert(marks2[k] == mv);
                }
            }
        },
    }
}

// ---------------------------------------------------------------------------
// Proper matchings.
// ---------------------------------------------------------------------------

/// Old entity `i` has a partner.
pub open spec fn old_paired(m: Matching, i: int) -> bool {
    exists|k: int| 0 <= k < m.pairs@.len() && m.pairs@[k].old == i
}

/// New entity `j` has a partner.
pub open spec fn new_paired(m: Matching, j: int) -> bool {
    exists|k: int| 0 <= k < m.pairs@.len() && m.pairs@[k].new == j
}

/// Old entity `i` is listed among the deleted ones.
pub open spec fn old_dropped(m: Matching, i: int) -> bool {
    exists|r: int| 0 <= r < m.only_old@.len() && m.only_old@[r] as int == i
}

/// New entity `j` is listed among the created ones.
pub open spec fn new_created(m: Matching, j: int) -> bool {
    exists|r: int| 0 <= r < m.only_new@.len() && m.only_new@[r] as int == j
}

/// A matching that keeps the order of the entities: pairs ascend on both sides,
/// and every entity is either paired or listed, in ascending order, among the
/// ones the tool deleted or created.
#[verifier::opaque]
pub open spec fn proper(m: Matching, n_old: int, n_new: int) -> bool {
    let p = m.pairs@;
    let oo = m.only_old@;
    let on = m.only_new@;
    &&& forall|k: int| 0 <= k < p.len() ==> (#[trigger] p[k]).old < n_old && p[k].new < n_new
    &&& forall|k: int, l: int| 0 <= k < l < p.len() ==> p[k].old < p[l].old && p[k].new < p[l].new
    &&& forall|r: int| 0 <= r < oo.len() ==> (#[trigger] oo[r]) < n_old && !old_paired(m, oo[r] as int)
    &&& forall|r: int, q: int| 0 <= r < q < oo.len() ==> oo[r] < oo[q]
    &&& forall|r: int| 0 <= r < on.len() ==> (#[trigger] on[r]) < n_new && !new_paired(m, on[r] as int)
    &&& forall|r: int, q: int| 0 <= r < q < on.len() ==> on[r] < on[q]
    &&& forall|i: int| 0 <= i < n_old && !old_paired(m, i) ==> old_dropped(m, i)
    &&& forall|j: int| 0 <= j < n_new && !new_paired(m, j) ==> new_created(m, j)
}

pub(crate) proof fn lemma_proper_pairs(m: Matching, n_old: int, n_new: int)
    requires
        proper(m, n_old, n_new),
    ensures
        forall|k: int| 0 <= k < m.pairs@.len() ==> (#[trigger] m.pairs@[k]).old < n_old && m.pairs@[k].new < n_new,
        forall|k: int, l: int| 0 <= k < l < m.pairs@.len() ==> m.pairs@[k].old < m.pairs@[l].old && m.pairs@[k].new < m.pairs@[l].new,
{
    reveal(proper);
}

pub(crate) proof fn lemma_proper_created(m: Matching, n_old: int, n_new: int)
    requires
        proper(m, n_old, n_new),
    ensures
        forall|r: int| 0 <= r < m.only_new@.len() ==> (#[trigger] m.only_new@[r]) < n_new && !new_paired(m, m.only_new@[r] as int),
        forall|r: int, q: int| 0 <= r < q < m.only_new@.len() ==> m.only_new@[r] < m.only_new@[q],
        forall|j: int| 0 <= j < n_new && !new_paired(m, j) ==> new_created(m, j),
{
    reveal(proper);
}

pub(crate) proof fn lemma_proper_deleted(m: Matching, n_old: int, n_new: int)
    requires
        proper(m, n_old, n_new),
    ensures
        forall|r: int| 0 <= r < m.only_old@.len() ==> (#[trigger] m.only_old@[r]) < n_old && !old_paired(m, m.only_old@[r] as int),
        forall|r: int, q: int| 0 <= r < q < m.only_old@.len() ==> m.only_old@[r] < m.only_old@[q],
        forall|i: int| 0 <= i < n_old && !old_paired(m, i) ==> old_dropped(m, i),
{
    reveal(proper);
}

pub(crate) proof fn lemma_partner(m: Matching, n_old: int, n_new: int, k: int)
    requires
        proper(m, n_old, n_new),
        0 <= k < m.pairs@.len(),
    ensures
        partner(m, m.pairs@[k].new as int) == Some(m.pairs@[k].old as int),
{
    lemma_proper_pairs(m, n_old, n_new);
    let j = m.pairs@[k].new as int;
    assert(exists|q: int| 0 <= q < m.pairs@.len() && m.pairs@[q].new == j);
    let q = choose|q: int| 0 <= q < m.pairs@.len() && m.pairs@[q].new == j;
    if q < k {
        assert(m.pairs@[q].new < m.pairs@[k].new);
    } else if k < q {
        assert(m.pairs@[k].new < m.pairs@[q].new);
    }
}

// ---------------------------------------------------------------------------
// The stages of a bucket's diff.
// ---------------------------------------------------------------------------

/// The pair at `k` may go into a journal: nothing untracked about it, and
/// paired with certainty if it has anything to undo.
pub open spec fn pair_fine(olds: Seq<EntityView>, news: Seq<EntityView>, m: Matching, k: int) -> bool {
    let p = m.pairs@[k];
    &&& body_notes(olds[p.old as int], news[p.new as int]).len() == 0
    &&& pair_ops(olds[p.old as int], news[p.new as int]).len() > 0 ==> p.confidence.level() >= 1
}

/// The pair at `k` has something to undo.
pub open spec fn active(olds: Seq<EntityView>, news: Seq<EntityView>, m: Matching, k: int) -> bool {
    pair_ops(olds[m.pairs@[k].old as int], news[m.pairs@[k].new as int]).len() > 0
}

/// `longer` starts with `shorter`.
pub open spec fn extends<A>(longer: Seq<A>, shorter: Seq<A>) -> bool {
    longer.len() >= shorter.len() && longer.subrange(0, shorter.len() as int) == shorter
}

/// The marks from `from` on stand for the active pairs among the first `n`,
/// one each, in ascending order of position.
#[verifier::opaque]
pub open spec fn pair_marks(
    marks: Seq<MarkView>,
    from: int,
    bucket: Bucket,
    olds: Seq<EntityView>,
    news: Seq<EntityView>,
    m: Matching,
    n: int,
) -> bool {
    &&& forall|q: int| from <= q < marks.len() ==> (#[trigger] marks[q]).bucket == bucket && exists|k: int|
        0 <= k < n && m.pairs@[k].new == marks[q].idx && active(olds, news, m, k)
    &&& forall|q1: int, q2: int| from <= q1 < q2 < marks.len() ==> marks[q1].idx < marks[q2].idx
    &&& forall|k: int| 0 <= k < n && active(olds, news, m, k) ==> exists|q: int|
        from <= q < marks.len() && (#[trigger] marks[q]).idx == m.pairs@[k].new
}

/// No operation from `from` on creates or deletes an entity.
#[verifier::opaque]
pub open spec fn plain_ops(ops: Seq<OpView>, from: int) -> bool {
    forall|q: int| from <= q < ops.len() ==> !((#[trigger] ops[q]) is AddEntity) && !(ops[q] is RemoveEntity)
}

pub(crate) proof fn lemma_extends_push<A>(longer: Seq<A>, shorter: Seq<A>, x: A)
    requires
        extends(longer, shorter),
    ensures
        extends(longer.push(x), shorter),
{
    assert(longer.push(x).subrange(0, shorter.len() as int) =~= longer.subrange(0, shorter.len() as int));
}

pub(crate) proof fn lemma_extends_concat<A>(longer: Seq<A>, shorter: Seq<A>, x: Seq<A>)
    requires
        extends(longer, shorter),
    ensures
        extends(longer + x, shorter),
{
    assert((longer + x).subrange(0, shorter.len() as int) =~= longer.subrange(0, shorter.len() as int));
}

pub(crate) proof fn lemma_pair_marks_start(marks: Seq<MarkView>, bucket: Bucket, olds: Seq<EntityView>, news: Seq<EntityView>, m: Matching)
    ensures
        pair_marks(marks, marks.len() as int, bucket, olds, news, m, 0),
{
    reveal(pair_marks);
}

pub(crate) proof fn lemma_pair_marks_skip(
    marks: Seq<MarkView>,
    from: int,
    bucket: Bucket,
    olds: Seq<EntityView>,
    news: Seq<EntityView>,
    m: Matching,
    n: int,
)
    requires
        pair_marks(marks, from, bucket, olds, news, m, n - 1),
        n >= 1,
        !active(olds, news, m, n - 1),
    ensures
        pair_marks(marks, from, bucket, olds, news, m, n),
{
    reveal(pair_marks);
    assert forall|q: int| from <= q < marks.len() implies (#[trigger] marks[q]).bucket == bucket && exists|k: int|
        0 <= k < n && m.pairs@[k].new == marks[q].idx && active(olds, news, m, k) by {
        let k = choose|k: int| 0 <= k < n - 1 && m.pairs@[k].new == marks[q].idx && active(olds, news, m, k);
    }
}

#[verifier::spinoff_prover]
#[verifier::rlimit(40)]
pub(crate) proof fn lemma_pair_marks_push(
    marks: Seq<MarkView>,
    from: int,
    bucket: Bucket,
    olds: Seq<EntityView>,
    news: Seq<EntityView>,
    m: Matching,
    n: int,
    mv: MarkView,
)
    requires
        pair_marks(marks, from, bucket, olds, news, m, n - 1),
        1 <= n <= m.pairs@.len(),
        0 <= from <= marks.len(),
        forall|k: int, l: int| 0 <= k < l < m.pairs@.len() ==> m.pairs@[k].new < m.pairs@[l].new,
        active(olds, news, m, n - 1),
        mv.bucket == bucket,
        mv.idx == m.pairs@[n - 1].new,
    ensures
        pair_marks(marks.push(mv), from, bucket, olds, news, m, n),
{
    reveal(pair_marks);
    let m2 = marks.push(mv);
    assert forall|q: int| from <= q < m2.len() implies (#[trigger] m2[q]).bucket == bucket && exists|k: int|
        0 <= k < n && m.pairs@[k].new == m2[q].idx && active(olds, news, m, k) by {
        if q < marks.len() {
            assert(m2[q] == marks[q]);
            let k = choose|k: int| 0 <= k < n - 1 && m.pairs@[k].new == marks[q].idx && active(olds, news, m, k);
        } else {
            assert(m2[q] == mv);
        }
    }
    assert forall|q1: int, q2: int| from <= q1 < q2 < m2.len() implies m2[q1].idx < m2[q2].idx by {
        if q2 == marks.len() {
            assert(m2[q1] == marks[q1]);
            let k = choose|k: int| 0 <= k < n - 1 && m.pairs@[k].new == marks[q1].idx && active(olds, news, m, k);
            assert(m.pairs@[k].new < m.pairs@[n - 1].new);
        } else {
            assert(m2[q1] == marks[q1] && m2[q2] == marks[q2]);
        }
    }
    assert forall|k: int| 0 <= k < n && active(olds, news, m, k) implies exists|q: int|
        from <= q < m2.len() && (#[trigger] m2[q]).idx == m.pairs@[k].new by {
        if k == n - 1 {
            assert(m2[marks.len() as int] == mv);
        } else {
            let q = choose|q: int| from <= q < marks.len() && (#[trigger] marks[q]).idx == m.pairs@[k].new;
            assert(m2[q] == marks[q]);
        }
    }
}

pub(crate) proof fn lemma_plain_start(ops: Seq<OpView>)
    ensures
        plain_ops(ops, ops.len() as int),
{
    reveal(plain_ops);
}

pub(crate) proof fn lemma_plain_concat(ops: Seq<OpView>, from: int, more: Seq<OpView>)
    requires
        plain_ops(ops, from),
        0 <= from,
        forall|q: int| 0 <= q < more.len() ==> !((#[trigger] more[q]) is AddEntity) && !(more[q] is RemoveEntity),
    ensures
        plain_ops(ops + more, from),
{
    reveal(plain_ops);
    assert forall|q: int| from <= q < (ops + more).len() implies !((#[trigger] (ops + more)[q]) is AddEntity) && !((ops + more)[q] is RemoveEntity) by {
        if q >= ops.len() {
            assert((ops + more)[q] == more[q - ops.len()]);
        } else {
            assert((ops + more)[q] == ops[q]);
        }
    }
}

pub(crate) proof fn lemma_pair_block_plain(b: EntityView, a: EntityView, t: Seq<char>)
    ensures
        forall|q: int| 0 <= q < stamp(pair_ops(b, a), t).len() ==> !((#[trigger] stamp(pair_ops(b, a), t)[q]) is AddEntity)
            && !(stamp(pair_ops(b, a), t)[q] is RemoveEntity),
{
    let ops = pair_ops(b, a);
    let kd = keyvalue_diff(b.key_values, a.key_values);
    lemma_keyvalue_ops_kinds(b.key_values, a.key_values);
    assert forall|q: int| 0 <= q < stamp(ops, t).len() implies !((#[trigger] stamp(ops, t)[q]) is AddEntity) && !(stamp(ops, t)[q] is RemoveEntity) by {
        assert(stamp(ops, t)[q] == ops[q].with_at(t));
        if q < kd.len() {
            assert(ops[q] == kd[q]);
        }
    }
}

/// The pairs stage of a bucket's diff.
pub(crate) proof fn lemma_diff_pairs(
    acc: (DiffView, nat),
    bucket: Bucket,
    o: MapView,
    w: MapView,
    me: Matching,
    mh: Matching,
    n: int,
)
    requires
        sound(acc, o, w, me, mh),
        proper(matching_for(me, mh, bucket), list_of(o, bucket).len() as int, list_of(w, bucket).len() as int),
        0 <= n <= matching_for(me, mh, bucket).pairs@.len(),
        forall|k: int| 0 <= k < n ==> pair_fine(list_of(o, bucket), list_of(w, bucket), matching_for(me, mh, bucket), k),
    ensures
        ({
            let m = matching_for(me, mh, bucket);
            let (olds, news) = (list_of(o, bucket), list_of(w, bucket));
            let r = diff_pairs(acc, bucket, olds, news, pairs_of(m), n);
            &&& sound(r, o, w, me, mh)
            &&& r.0.untracked == acc.0.untracked
            &&& r.1 >= acc.1
            &&& extends(r.0.marks, acc.0.marks)
            &&& pair_marks(r.0.marks, acc.0.marks.len() as int, bucket, olds, news, m, n)
            &&& extends(r.0.ops, acc.0.ops)
            &&& plain_ops(r.0.ops, acc.0.ops.len() as int)
        }),
    decreases n,
{
    let m = matching_for(me, mh, bucket);
    let (olds, news) = (list_of(o, bucket), list_of(w, bucket));
    let pairs = pairs_of(m);
    if n == 0 {
        assert(acc.0.ops.subrange(0, acc.0.ops.len() as int) =~= acc.0.ops);
        assert(acc.0.marks.subrange(0, acc.0.marks.len() as int) =~= acc.0.marks);
        lemma_pair_marks_start(acc.0.marks, bucket, olds, news, m);
        lemma_plain_start(acc.0.ops);
    } else {
        lemma_diff_pairs(acc, bucket, o, w, me, mh, n - 1);
        let prev = diff_pairs(acc, bucket, olds, news, pairs, n - 1);
        let p = pairs[n - 1];
        assert(p == (m.pairs@[n - 1].old as int, m.pairs@[n - 1].new as int, m.pairs@[n - 1].confidence, m.pairs@[n - 1].score@));
        let (b, a) = (olds[p.0], news[p.1]);
        let ops = pair_ops(b, a);
        assert(pair_fine(olds, news, m, n - 1));
        assert(prev.0.untracked + body_notes(b, a) =~= prev.0.untracked);
        let r = diff_pairs(acc, bucket, olds, news, pairs, n);
        if ops.len() > 0 {
            let t = decimal(prev.1 + 1);
            let mv = MarkView { bucket, idx: p.1 as nat, token: t };
            lemma_partner(m, olds.len() as int, news.len() as int, n - 1);
            lemma_proper_pairs(m, olds.len() as int, news.len() as int);
            lemma_stamp_at(ops, t);
            lemma_append_block(prev, stamp(ops, t), Some(mv), o, w, me, mh);
            assert(r.0.marks == prev.0.marks.push(mv));
            assert(r.0.ops == prev.0.ops + stamp(ops, t));
            lemma_extends_push(prev.0.marks, acc.0.marks, mv);
            lemma_extends_concat(prev.0.ops, acc.0.ops, stamp(ops, t));
            lemma_pair_marks_push(prev.0.marks, acc.0.marks.len() as int, bucket, olds, news, m, n, mv);
            lemma_pair_block_plain(b, a, t);
            lemma_plain_concat(prev.0.ops, acc.0.ops.len() as int, stamp(ops, t));
        } else {
            assert(r.0.marks == prev.0.marks);
            assert(r.0.ops == prev.0.ops);
            lemma_pair_marks_skip(prev.0.marks, acc.0.marks.len() as int, bucket, olds, news, m, n);
        }
    }
}

pub(crate) proof fn lemma_partner_none(m: Matching, j: int)
    requires
        !new_paired(m, j),
    ensures
        partner(m, j) is None,
{
}

/// The stage of the entities the tool created.
pub(crate) proof fn lemma_diff_added(acc: (DiffView, nat), bucket: Bucket, o: MapView, w: MapView, me: Matching, mh: Matching, n: int)
    requires
        sound(acc, o, w, me, mh),
        proper(matching_for(me, mh, bucket), list_of(o, bucket).len() as int, list_of(w, bucket).len() as int),
        0 <= n <= matching_for(me, mh, bucket).only_new@.len(),
    ensures
        ({
            let on = positions(matching_for(me, mh, bucket).only_new@);
            let r = diff_added(acc, bucket, on, n);
            &&& sound(r, o, w, me, mh)
            &&& r.0.untracked == acc.0.untracked
            &&& r.1 == acc.1 + n
            &&& r.0.marks.len() == acc.0.marks.len() + n
            &&& extends(r.0.marks, acc.0.marks)
            &&& forall|q: int| acc.0.marks.len() <= q < acc.0.marks.len() + n ==> (#[trigger] r.0.marks[q]) == (MarkView {
                bucket,
                idx: on[q - acc.0.marks.len()] as nat,
                token: decimal((acc.1 + q - acc.0.marks.len() + 1) as nat),
            })
            &&& r.0.ops.len() == acc.0.ops.len() + n
            &&& extends(r.0.ops, acc.0.ops)
            &&& forall|q: int| acc.0.ops.len() <= q < acc.0.ops.len() + n ==> (#[trigger] r.0.ops[q]) == OpView::AddEntity {
                at: decimal((acc.1 + q - acc.0.ops.len() + 1) as nat),
                bucket,
            }
        }),
    decreases n,
{
    let m = matching_for(me, mh, bucket);
    let on = positions(m.only_new@);
    if n == 0 {
        assert(acc.0.ops.subrange(0, acc.0.ops.len() as int) =~= acc.0.ops);
        assert(acc.0.marks.subrange(0, acc.0.marks.len() as int) =~= acc.0.marks);
    } else {
        lemma_diff_added(acc, bucket, o, w, me, mh, n - 1);
        let prev = diff_added(acc, bucket, on, n - 1);
        let t = decimal(prev.1 + 1);
        let mv = MarkView { bucket, idx: on[n - 1] as nat, token: t };
        let op = OpView::AddEntity { at: t, bucket };
        assert(on[n - 1] == m.only_new@[n - 1] as int);
        lemma_proper_created(m, list_of(o, bucket).len() as int, list_of(w, bucket).len() as int);
        lemma_partner_none(m, on[n - 1]);
        assert(expected(o, w, me, mh, mv) == seq![op]);
        lemma_append_block(prev, seq![op], Some(mv), o, w, me, mh);
        let r = diff_added(acc, bucket, on, n);
        assert(r.0.ops == prev.0.ops + seq![op]);
        lemma_extends_push(prev.0.marks, acc.0.marks, mv);
        lemma_extends_concat(prev.0.ops, acc.0.ops, seq![op]);
        assert forall|q: int| acc.0.marks.len() <= q < acc.0.marks.len() + n implies (#[trigger] r.0.marks[q]) == (MarkView {
            bucket,
            idx: on[q - acc.0.marks.len()] as nat,
            token: decimal((acc.1 + q - acc.0.marks.len() + 1) as nat),
        }) by {
            if q < acc.0.marks.len() + n - 1 {
                assert(r.0.marks[q] == prev.0.marks[q]);
            }
        }
        assert forall|q: int| acc.0.ops.len() <= q < acc.0.ops.len() + n implies (#[trigger] r.0.ops[q]) == OpView::AddEntity {
            at: decimal((acc.1 + q - acc.0.ops.len() + 1) as nat),
            bucket,
        } by {
            if q < acc.0.ops.len() + n - 1 {
                assert(r.0.ops[q] == prev.0.ops[q]);
            }
        }
    }
}

/// The stage of the entities the tool deleted.
pub(crate) proof fn lemma_diff_removed(acc: (DiffView, nat), bucket: Bucket, o: MapView, w: MapView, me: Matching, mh: Matching, n: int)
    requires
        sound(acc, o, w, me, mh),
        0 <= n <= matching_for(me, mh, bucket).only_old@.len(),
    ensures
        ({
            let oo = positions(matching_for(me, mh, bucket).only_old@);
            let olds = list_of(o, bucket);
            let r = diff_removed(acc, bucket, olds, oo, n);
            &&& sound(r, o, w, me, mh)
            &&& r.0.untracked == acc.0.untracked
            &&& r.1 == acc.1 + n
            &&& r.0.marks == acc.0.marks
            &&& r.0.ops.len() == acc.0.ops.len() + n
            &&& extends(r.0.ops, acc.0.ops)
            &&& forall|q: int| acc.0.ops.len() <= q < acc.0.ops.len() + n ==> (#[trigger] r.0.ops[q]) == OpView::RemoveEntity {
                at: decimal((acc.1 + q - acc.0.ops.len() + 1) as nat),
                bucket,
                idx: oo[q - acc.0.ops.len()] as nat,
                entity: olds[oo[q - acc.0.ops.len()]],
            }
        }),
    decreases n,
{
    let m = matching_for(me, mh, bucket);
    let oo = positions(m.only_old@);
    let olds = list_of(o, bucket);
    if n == 0 {
        assert(acc.0.ops.subrange(0, acc.0.ops.len() as int) =~= acc.0.ops);
    } else {
        lemma_diff_removed(acc, bucket, o, w, me, mh, n - 1);
        let prev = diff_removed(acc, bucket, olds, oo, n - 1);
        let t = decimal(prev.1 + 1);
        let i = oo[n - 1];
        let op = OpView::RemoveEntity { at: t, bucket, idx: i as nat, entity: olds[i] };
        assert(i >= 0);
        lemma_append_block(prev, seq![op], None, o, w, me, mh);
        let r = diff_removed(acc, bucket, olds, oo, n);
        assert(r.0.ops == prev.0.ops + seq![op]);
        lemma_extends_concat(prev.0.ops, acc.0.ops, seq![op]);
        assert forall|q: int| acc.0.ops.len() <= q < acc.0.ops.len() + n implies (#[trigger] r.0.ops[q]) == OpView::RemoveEntity {
            at: decimal((acc.1 + q - acc.0.ops.len() + 1) as nat),
            bucket,
            idx: oo[q - acc.0.ops.len()] as nat,
            entity: olds[oo[q - acc.0.ops.len()]],
        } by {
            if q < acc.0.ops.len() + n - 1 {
                assert(r.0.ops[q] == prev.0.ops[q]);
            }
        }
    }
}

/// The untracked notes of the pairs stage only grow; where they did not, every
/// pair was fine.
pub(crate) proof fn lemma_pairs_untracked(acc: (DiffView, nat), bucket: Bucket, olds: Seq<EntityView>, news: Seq<EntityView>, m: Matching, n: int)
    requires
        0 <= n <= m.pairs@.len(),
        forall|k: int| 0 <= k < m.pairs@.len() ==> (#[trigger] m.pairs@[k]).old < olds.len() && m.pairs@[k].new < news.len(),
    ensures
        diff_pairs(acc, bucket, olds, news, pairs_of(m), n).0.untracked.len() >= acc.0.untracked.len(),
        diff_pairs(acc, bucket, olds, news, pairs_of(m), n).0.untracked.len() == acc.0.untracked.len()
            ==> forall|k: int| 0 <= k < n ==> pair_fine(olds, news, m, k),
    decreases n,
{
    if n > 0 {
        lemma_pairs_untracked(acc, bucket, olds, news, m, n - 1);
        let prev = diff_pairs(acc, bucket, olds, news, pairs_of(m), n - 1);
        let p = pairs_of(m)[n - 1];
        assert(p == (m.pairs@[n - 1].old as int, m.pairs@[n - 1].new as int, m.pairs@[n - 1].confidence, m.pairs@[n - 1].score@));
        let r = diff_pairs(acc, bucket, olds, news, pairs_of(m), n);
        if r.0.untracked.len() == acc.0.untracked.len() {
            assert forall|k: int| 0 <= k < n implies pair_fine(olds, news, m, k) by {
                if k == n - 1 {
                    let b = olds[p.0];
                    let a = news[p.1];
                    assert(body_notes(b, a).len() == 0);
                } 
            }
        }
    }
}

// ---------------------------------------------------------------------------
// The entities a journal puts back.
// ---------------------------------------------------------------------------

/// The entities of `bucket` that the operations put back, with their
/// positions, in journal order.
pub open spec fn removals_of(ops: Seq<OpView>, bucket: Bucket) -> Seq<(nat, EntityView)>
    decreases ops.len(),
{
    if ops.len() == 0 {
        Seq::empty()
    } else {
        let prev = removals_of(ops.drop_last(), bucket);
        match ops.last() {
            OpView::RemoveEntity { bucket: b, idx, entity, .. } => if b == bucket {
                prev.push((idx, entity))
            } else {
                prev
            },
            _ => prev,
        }
    }
}

/// `list` with each entity put back at its position, or at the end where the
/// list is shorter, in order.
pub open spec fn insert_all(list: Seq<EntityView>, rs: Seq<(nat, EntityView)>) -> Seq<EntityView>
    decreases rs.len(),
{
    if rs.len() == 0 {
        list
    } else {
        let prev = insert_all(list, rs.drop_last());
        let (idx, e) = rs.last();
        let at = if idx < prev.len() {
            idx as int
        } else {
            prev.len() as int
        };
        prev.insert(at, e)
    }
}

pub(crate) proof fn lemma_restored_is_insert_all(list: Seq<EntityView>, ops: Seq<OpView>, bucket: Bucket)
    ensures
        restored_entities(list, ops, bucket) == insert_all(list, removals_of(ops, bucket)),
    decreases ops.len(),
{
    if ops.len() > 0 {
        lemma_restored_is_insert_all(list, ops.drop_last(), bucket);
        let prev = removals_of(ops.drop_last(), bucket);
        match ops.last() {
            OpView::RemoveEntity { bucket: b, idx, entity, .. } => {
                if b == bucket {
                    assert(prev.push((idx, entity)).drop_last() =~= prev);
                }
            },
            _ => {},
        }
    }
}

pub(crate) proof fn lemma_removals_concat(a: Seq<OpView>, b: Seq<OpView>, bucket: Bucket)
    ensures
        removals_of(a + b, bucket) == removals_of(a, bucket) + removals_of(b, bucket),
    decreases b.len(),
{
    if b.len() == 0 {
        assert(a + b =~= a);
        assert(removals_of(a, bucket) + removals_of(b, bucket) =~= removals_of(a, bucket));
    } else {
        lemma_removals_concat(a, b.drop_last(), bucket);
        assert((a + b).drop_last() =~= a + b.drop_last());
        assert((a + b).last() == b.last());
        match b.last() {
            OpView::RemoveEntity { bucket: bb, idx, entity, .. } => {
                if bb == bucket {
                    assert(removals_of(a, bucket) + removals_of(b, bucket) =~= (removals_of(a, bucket)
                        + removals_of(b.drop_last(), bucket)).push((idx, entity)));
                }
            },
            _ => {},
        }
    }
}

pub(crate) proof fn lemma_removals_none(ops: Seq<OpView>, bucket: Bucket)
    requires
        forall|q: int| 0 <= q < ops.len() ==> !((#[trigger] ops[q]) is RemoveEntity),
    ensures
        removals_of(ops, bucket) == Seq::<(nat, EntityView)>::empty(),
    decreases ops.len(),
{
    if ops.len() > 0 {
        assert(!(ops[ops.len() - 1] is RemoveEntity));
        lemma_removals_none(ops.drop_last(), bucket);
    }
}

/// The list of entities a bucket's diff puts back: the deleted ones in order.
pub open spec fn deleted_list(olds: Seq<EntityView>, m: Matching) -> Seq<(nat, EntityView)> {
    Seq::new(m.only_old@.len(), |r: int| (m.only_old@[r] as nat, olds[m.only_old@[r] as int]))
}

pub(crate) proof fn lemma_removals_region(ops: Seq<OpView>, bucket: Bucket, b: Bucket, c: nat, olds: Seq<EntityView>, m: Matching)
    requires
        ops.len() == m.only_old@.len(),
        forall|q: int| 0 <= q < ops.len() ==> (#[trigger] ops[q]) == (OpView::RemoveEntity {
            at: decimal((c + q + 1) as nat),
            bucket,
            idx: m.only_old@[q] as nat,
            entity: olds[m.only_old@[q] as int],
        }),
    ensures
        removals_of(ops, b) == (if b == bucket {
            deleted_list(olds, m)
        } else {
            Seq::<(nat, EntityView)>::empty()
        }),
    decreases ops.len(),
{
    lemma_removals_prefix(ops, bucket, b, c, olds, m, ops.len() as int);
    assert(ops.subrange(0, ops.len() as int) =~= ops);
    if b == bucket {
        assert(deleted_list(olds, m).subrange(0, ops.len() as int) =~= deleted_list(olds, m));
    }
}

pub(crate) proof fn lemma_removals_prefix(ops: Seq<OpView>, bucket: Bucket, b: Bucket, c: nat, olds: Seq<EntityView>, m: Matching, n: int)
    requires
        ops.len() == m.only_old@.len(),
        0 <= n <= ops.len(),
        forall|q: int| 0 <= q < ops.len() ==> (#[trigger] ops[q]) == (OpView::RemoveEntity {
            at: decimal((c + q + 1) as nat),
            bucket,
            idx: m.only_old@[q] as nat,
            entity: olds[m.only_old@[q] as int],
        }),
    ensures
        removals_of(ops.subrange(0, n), b) == (if b == bucket {
            deleted_list(olds, m).subrange(0, n)
        } else {
            Seq::<(nat, EntityView)>::empty()
        }),
    decreases n,
{
    if n > 0 {
        lemma_removals_prefix(ops, bucket, b, c, olds, m, n - 1);
        assert(ops.subrange(0, n).drop_last() =~= ops.subrange(0, n - 1));
        assert(ops.subrange(0, n).last() == ops[n - 1]);
        if b == bucket {
            assert(deleted_list(olds, m).subrange(0, n) =~= deleted_list(olds, m).subrange(0, n - 1).push(
                deleted_list(olds, m)[n - 1],
            ));
        }
    } else {
        assert(ops.subrange(0, 0) =~= Seq::<OpView>::empty());
        assert(deleted_list(olds, m).subrange(0, 0) =~= Seq::<(nat, EntityView)>::empty());
    }
}

// ---------------------------------------------------------------------------
// A bucket's diff as a whole.
// ---------------------------------------------------------------------------

/// The new entity at `j` gets a mark: it is the partner in an active pair, or
/// the tool created it.
pub open spec fn marked_spot(olds: Seq<EntityView>, news: Seq<EntityView>, m: Matching, j: int) -> bool {
    ||| exists|k: int| 0 <= k < m.pairs@.len() && m.pairs@[k].new == j && active(olds, news, m, k)
    ||| new_created(m, j)
}

/// The marks from `from` on are the bucket's: one on each spot that gets a mark,
/// and none elsewhere.
#[verifier::opaque]
pub open spec fn bucket_marks(
    marks: Seq<MarkView>,
    from: int,
    bucket: Bucket,
    olds: Seq<EntityView>,
    news: Seq<EntityView>,
    m: Matching,
) -> bool {
    &&& forall|q: int| from <= q < marks.len() ==> (#[trigger] marks[q]).bucket == bucket && marks[q].idx < news.len()
        && marked_spot(olds, news, m, marks[q].idx as int)
    &&& forall|q1: int, q2: int| from <= q1 < marks.len() && from <= q2 < marks.len() && q1 != q2 ==> marks[q1].idx != marks[q2].idx
    &&& forall|j: int| 0 <= j < news.len() && marked_spot(olds, news, m, j) ==> exists|q: int|
        from <= q < marks.len() && (#[trigger] marks[q]).idx == j
}

pub(crate) proof fn lemma_pair_marks_spots(
    marks: Seq<MarkView>,
    from: int,
    bucket: Bucket,
    olds: Seq<EntityView>,
    news: Seq<EntityView>,
    m: Matching,
    n: int,
)
    requires
        pair_marks(marks, from, bucket, olds, news, m, n),
    ensures
        forall|q: int| from <= q < marks.len() ==> (#[trigger] marks[q]).bucket == bucket && exists|k: int|
            0 <= k < n && m.pairs@[k].new == marks[q].idx && active(olds, news, m, k),
{
    reveal(pair_marks);
}

pub(crate) proof fn lemma_pair_marks_rising(
    marks: Seq<MarkView>,
    from: int,
    bucket: Bucket,
    olds: Seq<EntityView>,
    news: Seq<EntityView>,
    m: Matching,
    n: int,
)
    requires
        pair_marks(marks, from, bucket, olds, news, m, n),
    ensures
        forall|q1: int, q2: int| from <= q1 < q2 < marks.len() ==> marks[q1].idx < marks[q2].idx,
{
    reveal(pair_marks);
}

pub(crate) proof fn lemma_pair_marks_cover(
    marks: Seq<MarkView>,
    from: int,
    bucket: Bucket,
    olds: Seq<EntityView>,
    news: Seq<EntityView>,
    m: Matching,
    n: int,
)
    requires
        pair_marks(marks, from, bucket, olds, news, m, n),
    ensures
        forall|k: int| 0 <= k < n && active(olds, news, m, k) ==> exists|q: int|
            from <= q < marks.len() && (#[trigger] marks[q]).idx == m.pairs@[k].new,
{
    reveal(pair_marks);
}

pub(crate) proof fn lemma_bucket_marks_spots(
    marks: Seq<MarkView>,
    from: int,
    mid: int,
    bucket: Bucket,
    olds: Seq<EntityView>,
    news: Seq<EntityView>,
    m: Matching,
)
    requires
        0 <= from <= mid,
        mid + m.only_new@.len() == marks.len(),
        proper(m, olds.len() as int, news.len() as int),
        pair_marks(marks.subrange(0, mid), from, bucket, olds, news, m, m.pairs@.len() as int),
        forall|q: int| mid <= q < mid + m.only_new@.len() ==> (#[trigger] marks[q]).bucket == bucket && marks[q].idx
            == m.only_new@[q - mid] as nat,
    ensures
        forall|q: int| from <= q < marks.len() ==> (#[trigger] marks[q]).bucket == bucket && marks[q].idx < news.len()
            && marked_spot(olds, news, m, marks[q].idx as int),
{
    let pm = marks.subrange(0, mid);
    let on = m.only_new@;
    lemma_pair_marks_spots(pm, from, bucket, olds, news, m, m.pairs@.len() as int);
    lemma_proper_pairs(m, olds.len() as int, news.len() as int);
    lemma_proper_created(m, olds.len() as int, news.len() as int);
    assert forall|q: int| from <= q < marks.len() implies (#[trigger] marks[q]).bucket == bucket && marks[q].idx < news.len()
        && marked_spot(olds, news, m, marks[q].idx as int) by {
        if q < mid {
            assert(marks[q] == pm[q]);
            let k = choose|k: int| 0 <= k < m.pairs@.len() && m.pairs@[k].new == pm[q].idx && active(olds, news, m, k);
            assert(m.pairs@[k].new < news.len());
        } else {
            let r = q - mid;
            assert(marks[q].idx == on[r]);
            assert(on[r] < news.len());
            assert(new_created(m, on[r] as int));
        }
    }
}

pub(crate) proof fn lemma_bucket_marks_apart(
    marks: Seq<MarkView>,
    from: int,
    mid: int,
    bucket: Bucket,
    olds: Seq<EntityView>,
    news: Seq<EntityView>,
    m: Matching,
)
    requires
        0 <= from <= mid,
        mid + m.only_new@.len() == marks.len(),
        proper(m, olds.len() as int, news.len() as int),
        pair_marks(marks.subrange(0, mid), from, bucket, olds, news, m, m.pairs@.len() as int),
        forall|q: int| mid <= q < mid + m.only_new@.len() ==> (#[trigger] marks[q]).bucket == bucket && marks[q].idx
            == m.only_new@[q - mid] as nat,
    ensures
        forall|q1: int, q2: int| from <= q1 < marks.len() && from <= q2 < marks.len() && q1 != q2 ==> marks[q1].idx != marks[q2].idx,
{
    let pm = marks.subrange(0, mid);
    let on = m.only_new@;
    lemma_pair_marks_spots(pm, from, bucket, olds, news, m, m.pairs@.len() as int);
    lemma_pair_marks_rising(pm, from, bucket, olds, news, m, m.pairs@.len() as int);
    lemma_proper_created(m, olds.len() as int, news.len() as int);
    assert forall|q1: int, q2: int| from <= q1 < marks.len() && from <= q2 < marks.len() && q1 != q2 implies marks[q1].idx != marks[q2].idx by {
        if q1 < mid && q2 < mid {
            assert(marks[q1] == pm[q1] && marks[q2] == pm[q2]);
            if q1 > q2 {
                assert(pm[q2].idx < pm[q1].idx);
            } else {
                assert(pm[q1].idx < pm[q2].idx);
            }
        } else if q1 >= mid && q2 >= mid {
            assert(marks[q1].idx == on[q1 - mid] && marks[q2].idx == on[q2 - mid]);
            if q1 < q2 {
                assert(on[q1 - mid] < on[q2 - mid]);
            } else {
                assert(on[q2 - mid] < on[q1 - mid]);
            }
        } else if q1 < mid {
            assert(marks[q1] == pm[q1]);
            let k = choose|k: int| 0 <= k < m.pairs@.len() && m.pairs@[k].new == pm[q1].idx && active(olds, news, m, k);
            assert(marks[q2].idx == on[q2 - mid]);
            assert(!new_paired(m, on[q2 - mid] as int));
        } else {
            assert(marks[q2] == pm[q2]);
            let k = choose|k: int| 0 <= k < m.pairs@.len() && m.pairs@[k].new == pm[q2].idx && active(olds, news, m, k);
            assert(marks[q1].idx == on[q1 - mid]);
            assert(!new_paired(m, on[q1 - mid] as int));
        }
    }
}

pub(crate) proof fn lemma_bucket_marks_cover(
    marks: Seq<MarkView>,
    from: int,
    mid: int,
    bucket: Bucket,
    olds: Seq<EntityView>,
    news: Seq<EntityView>,
    m: Matching,
)
    requires
        0 <= from <= mid,
        mid + m.only_new@.len() == marks.len(),
        pair_marks(marks.subrange(0, mid), from, bucket, olds, news, m, m.pairs@.len() as int),
        forall|q: int| mid <= q < mid + m.only_new@.len() ==> (#[trigger] marks[q]).bucket == bucket && marks[q].idx
            == m.only_new@[q - mid] as nat,
    ensures
        forall|j: int| 0 <= j < news.len() && marked_spot(olds, news, m, j) ==> exists|q: int|
            from <= q < marks.len() && (#[trigger] marks[q]).idx == j,
{
    let pm = marks.subrange(0, mid);
    let on = m.only_new@;
    lemma_pair_marks_cover(pm, from, bucket, olds, news, m, m.pairs@.len() as int);
    assert forall|j: int| 0 <= j < news.len() && marked_spot(olds, news, m, j) implies exists|q: int|
        from <= q < marks.len() && (#[trigger] marks[q]).idx == j by {
        if exists|k: int| 0 <= k < m.pairs@.len() && m.pairs@[k].new == j && active(olds, news, m, k) {
            let k = choose|k: int| 0 <= k < m.pairs@.len() && m.pairs@[k].new == j && active(olds, news, m, k);
            let q = choose|q: int| from <= q < pm.len() && (#[trigger] pm[q]).idx == m.pairs@[k].new;
            assert(marks[q] == pm[q]);
        } else {
            let r = choose|r: int| 0 <= r < on.len() && on[r] as int == j;
            assert(marks[mid + r].idx == on[r]);
        }
    }
}

pub(crate) proof fn lemma_bucket_marks(
    marks: Seq<MarkView>,
    from: int,
    mid: int,
    bucket: Bucket,
    olds: Seq<EntityView>,
    news: Seq<EntityView>,
    m: Matching,
)
    requires
        0 <= from <= mid,
        mid + m.only_new@.len() == marks.len(),
        proper(m, olds.len() as int, news.len() as int),
        pair_marks(marks.subrange(0, mid), from, bucket, olds, news, m, m.pairs@.len() as int),
        forall|q: int| mid <= q < mid + m.only_new@.len() ==> (#[trigger] marks[q]).bucket == bucket && marks[q].idx
            == m.only_new@[q - mid] as nat,
    ensures
        bucket_marks(marks, from, bucket, olds, news, m),
{
    lemma_bucket_marks_spots(marks, from, mid, bucket, olds, news, m);
    lemma_bucket_marks_apart(marks, from, mid, bucket, olds, news, m);
    lemma_bucket_marks_cover(marks, from, mid, bucket, olds, news, m);
    reveal(bucket_marks);
}

/// A bucket's diff, given a proper matching whose pairs are all fine.
pub(crate) proof fn lemma_bucket(acc: (DiffView, nat), bucket: Bucket, o: MapView, w: MapView, me: Matching, mh: Matching)
    requires
        sound(acc, o, w, me, mh),
        proper(matching_for(me, mh, bucket), list_of(o, bucket).len() as int, list_of(w, bucket).len() as int),
        forall|k: int| 0 <= k < matching_for(me, mh, bucket).pairs@.len() ==> pair_fine(
            list_of(o, bucket),
            list_of(w, bucket),
            matching_for(me, mh, bucket),
            k,
        ),
    ensures
        ({
            let m = matching_for(me, mh, bucket);
            let (olds, news) = (list_of(o, bucket), list_of(w, bucket));
            let r = bucket_diff(acc, bucket, olds, news, m);
            &&& sound(r, o, w, me, mh)
            &&& r.0.untracked == acc.0.untracked
            &&& extends(r.0.marks, acc.0.marks)
            &&& bucket_marks(r.0.marks, acc.0.marks.len() as int, bucket, olds, news, m)
            &&& forall|b: Bucket| #[trigger] removals_of(r.0.ops, b) == removals_of(acc.0.ops, b) + (if b == bucket {
                deleted_list(olds, m)
            } else {
                Seq::<(nat, EntityView)>::empty()
            })
        }),
{
    let m = matching_for(me, mh, bucket);
    let (olds, news) = (list_of(o, bucket), list_of(w, bucket));
    let d1 = diff_pairs(acc, bucket, olds, news, pairs_of(m), m.pairs@.len() as int);
    lemma_diff_pairs(acc, bucket, o, w, me, mh, m.pairs@.len() as int);
    let d2 = diff_added(d1, bucket, positions(m.only_new@), m.only_new@.len() as int);
    lemma_diff_added(d1, bucket, o, w, me, mh, m.only_new@.len() as int);
    let r = diff_removed(d2, bucket, olds, positions(m.only_old@), m.only_old@.len() as int);
    lemma_diff_removed(d2, bucket, o, w, me, mh, m.only_old@.len() as int);
    assert(r == bucket_diff(acc, bucket, olds, news, m));
    // marks
    assert(d2.0.marks.subrange(0, d1.0.marks.len() as int) == d1.0.marks);
    assert(extends(r.0.marks, acc.0.marks)) by {
        assert(r.0.marks.subrange(0, acc.0.marks.len() as int) =~= d1.0.marks.subrange(0, acc.0.marks.len() as int));
    }
    assert forall|q: int| d1.0.marks.len() <= q < d1.0.marks.len() + m.only_new@.len() implies (#[trigger] r.0.marks[q]).bucket
        == bucket && r.0.marks[q].idx == m.only_new@[q - d1.0.marks.len()] as nat by {
        assert(positions(m.only_new@)[q - d1.0.marks.len()] == m.only_new@[q - d1.0.marks.len()] as int);
    }
    assert(r.0.marks.subrange(0, d1.0.marks.len() as int) == d1.0.marks);
    lemma_bucket_marks(r.0.marks, acc.0.marks.len() as int, d1.0.marks.len() as int, bucket, olds, news, m);
    // the operations
    let p = d1.0.ops.subrange(acc.0.ops.len() as int, d1.0.ops.len() as int);
    assert(d1.0.ops =~= acc.0.ops + p);
    assert forall|q: int| 0 <= q < p.len() implies !((#[trigger] p[q]) is RemoveEntity) by {
        reveal(plain_ops);
        assert(p[q] == d1.0.ops[q + acc.0.ops.len()]);
    }
    let a = d2.0.ops.subrange(d1.0.ops.len() as int, d2.0.ops.len() as int);
    assert(d2.0.ops =~= d1.0.ops + a);
    assert forall|q: int| 0 <= q < a.len() implies !((#[trigger] a[q]) is RemoveEntity) by {
        assert(a[q] == d2.0.ops[q + d1.0.ops.len()]);
    }
    let rr = r.0.ops.subrange(d2.0.ops.len() as int, r.0.ops.len() as int);
    assert(r.0.ops =~= d2.0.ops + rr);
    assert forall|q: int| 0 <= q < rr.len() implies (#[trigger] rr[q]) == (OpView::RemoveEntity {
        at: decimal((d2.1 + q + 1) as nat),
        bucket,
        idx: m.only_old@[q] as nat,
        entity: olds[m.only_old@[q] as int],
    }) by {
        assert(rr[q] == r.0.ops[q + d2.0.ops.len()]);
        assert(positions(m.only_old@)[q] == m.only_old@[q] as int);
    }
    assert forall|b: Bucket| #[trigger] removals_of(r.0.ops, b) == removals_of(acc.0.ops, b) + (if b == bucket {
        deleted_list(olds, m)
    } else {
        Seq::<(nat, EntityView)>::empty()
    }) by {
        lemma_removals_concat(acc.0.ops, p, b);
        lemma_removals_none(p, b);
        lemma_removals_concat(d1.0.ops, a, b);
        lemma_removals_none(a, b);
        lemma_removals_concat(d2.0.ops, rr, b);
        lemma_removals_region(rr, bucket, b, d2.1, olds, m);
        assert(removals_of(acc.0.ops, b) + Seq::<(nat, EntityView)>::empty() =~= removals_of(acc.0.ops, b));
    }
}

pub(crate) proof fn lemma_added_untracked(acc: (DiffView, nat), bucket: Bucket, on: Seq<int>, n: int)
    ensures
        diff_added(acc, bucket, on, n).0.untracked == acc.0.untracked,
    decreases n,
{
    if n > 0 {
        lemma_added_untracked(acc, bucket, on, n - 1);
    }
}

pub(crate) proof fn lemma_removed_untracked(acc: (DiffView, nat), bucket: Bucket, olds: Seq<EntityView>, oo: Seq<int>, n: int)
    ensures
        diff_removed(acc, bucket, olds, oo, n).0.untracked == acc.0.untracked,
    decreases n,
{
    if n > 0 {
        lemma_removed_untracked(acc, bucket, olds, oo, n - 1);
    }
}

pub(crate) proof fn lemma_bucket_untracked(acc: (DiffView, nat), bucket: Bucket, olds: Seq<EntityView>, news: Seq<EntityView>, m: Matching)
    requires
        forall|k: int| 0 <= k < m.pairs@.len() ==> (#[trigger] m.pairs@[k]).old < olds.len() && m.pairs@[k].new < news.len(),
    ensures
        bucket_diff(acc, bucket, olds, news, m).0.untracked.len() >= acc.0.untracked.len(),
        bucket_diff(acc, bucket, olds, news, m).0.untracked.len() == acc.0.untracked.len()
            ==> forall|k: int| 0 <= k < m.pairs@.len() ==> pair_fine(olds, news, m, k),
{
    let d1 = diff_pairs(acc, bucket, olds, news, pairs_of(m), m.pairs@.len() as int);
    lemma_pairs_untracked(acc, bucket, olds, news, m, m.pairs@.len() as int);
    let d2 = diff_added(d1, bucket, positions(m.only_new@), m.only_new@.len() as int);
    lemma_added_untracked(d1, bucket, positions(m.only_new@), m.only_new@.len() as int);
    lemma_removed_untracked(d2, bucket, olds, positions(m.only_old@), m.only_old@.len() as int);
}

pub(crate) proof fn lemma_sound_start(o: MapView, w: MapView, me: Matching, mh: Matching)
    ensures
        sound((empty_diff(), 0), o, w, me, mh),
{
    reveal(sound);
}

/// What the diff of a compile whose matchings are proper and which finished
/// holds: it is sound, its marks fall into the entity and the hidden region,
/// and it puts back exactly the deleted entities of each list.
pub(crate) proof fn lemma_map(o: MapView, w: MapView, me: Matching, mh: Matching)
    requires
        proper(me, o.entities.len() as int, w.entities.len() as int),
        proper(mh, o.hiddens.len() as int, w.hiddens.len() as int),
        map_diff(o, w, me, mh).untracked.len() == 0,
    ensures
        ({
            let d1 = bucket_diff((empty_diff(), 0), Bucket::Entity, o.entities, w.entities, me);
            let d2 = bucket_diff(d1, Bucket::Hidden, o.hiddens, w.hiddens, mh);
            let d = map_diff(o, w, me, mh);
            &&& sound(d2, o, w, me, mh)
            &&& d.ops == d2.0.ops
            &&& d.marks == d2.0.marks
            &&& d1.0.marks.len() <= d.marks.len()
            &&& bucket_marks(d.marks.subrange(0, d1.0.marks.len() as int), 0, Bucket::Entity, o.entities, w.entities, me)
            &&& bucket_marks(d.marks, d1.0.marks.len() as int, Bucket::Hidden, o.hiddens, w.hiddens, mh)
            &&& removals_of(d.ops, Bucket::Entity) == deleted_list(o.entities, me)
            &&& removals_of(d.ops, Bucket::Hidden) == deleted_list(o.hiddens, mh)
            &&& forall|k: int| 0 <= k < me.pairs@.len() ==> pair_fine(o.entities, w.entities, me, k)
            &&& forall|k: int| 0 <= k < mh.pairs@.len() ==> pair_fine(o.hiddens, w.hiddens, mh, k)
        }),
{
    let start = (empty_diff(), 0nat);
    let d1 = bucket_diff(start, Bucket::Entity, o.entities, w.entities, me);
    let d2 = bucket_diff(d1, Bucket::Hidden, o.hiddens, w.hiddens, mh);
    lemma_proper_pairs(me, o.entities.len() as int, w.entities.len() as int);
    lemma_proper_pairs(mh, o.hiddens.len() as int, w.hiddens.len() as int);
    lemma_bucket_untracked(start, Bucket::Entity, o.entities, w.entities, me);
    lemma_bucket_untracked(d1, Bucket::Hidden, o.hiddens, w.hiddens, mh);
    assert(d2.0.untracked.len() == 0);
    lemma_sound_start(o, w, me, mh);
    assert(list_of(o, Bucket::Entity) == o.entities && list_of(w, Bucket::Entity) == w.entities);
    assert(matching_for(me, mh, Bucket::Entity) == me);
    lemma_bucket(start, Bucket::Entity, o, w, me, mh);
    assert(list_of(o, Bucket::Hidden) == o.hiddens && list_of(w, Bucket::Hidden) == w.hiddens);
    assert(matching_for(me, mh, Bucket::Hidden) == mh);
    lemma_bucket(d1, Bucket::Hidden, o, w, me, mh);
    assert(d1.0.marks == d2.0.marks.subrange(0, d1.0.marks.len() as int));
    assert(removals_of(Seq::<OpView>::empty(), Bucket::Entity) == Seq::<(nat, EntityView)>::empty());
    assert(removals_of(Seq::<OpView>::empty(), Bucket::Hidden) == Seq::<(nat, EntityView)>::empty());
    assert(removals_of(d2.0.ops, Bucket::Entity) == removals_of(d1.0.ops, Bucket::Entity) + Seq::<(nat, EntityView)>::empty());
    assert(removals_of(d1.0.ops, Bucket::Entity) == Seq::<(nat, EntityView)>::empty() + deleted_list(o.entities, me));
    assert(removals_of(d1.0.ops, Bucket::Hidden) == Seq::<(nat, EntityView)>::empty() + Seq::<(nat, EntityView)>::empty());
    assert(removals_of(d2.0.ops, Bucket::Hidden) == removals_of(d1.0.ops, Bucket::Hidden) + deleted_list(o.hiddens, mh));
    assert(Seq::<(nat, EntityView)>::empty() + deleted_list(o.entities, me) =~= deleted_list(o.entities, me));
    assert(deleted_list(o.entities, me) + Seq::<(nat, EntityView)>::empty() =~= deleted_list(o.entities, me));
    assert(Seq::<(nat, EntityView)>::empty() + Seq::<(nat, EntityView)>::empty() =~= Seq::<(nat, EntityView)>::empty());
    assert(Seq::<(nat, EntityView)>::empty() + deleted_list(o.hiddens, mh) =~= deleted_list(o.hiddens, mh));
}

// ---------------------------------------------------------------------------
// The compiled entity lists.
// ---------------------------------------------------------------------------

/// Mark `q` sits on entity `j` of `bucket`.
pub open spec fn sits(marks: Seq<MarkView>, q: int, bucket: Bucket, j: int) -> bool {
    0 <= q < marks.len() && marks[q].bucket == bucket && marks[q].idx == j
}

/// No two marks sit on the same entity.
pub open spec fn marks_apart(marks: Seq<MarkView>) -> bool {
    forall|q1: int, q2: int| 0 <= q1 < marks.len() && 0 <= q2 < marks.len() && q1 != q2 ==> !(marks[q1].bucket
        == marks[q2].bucket && marks[q1].idx == marks[q2].idx)
}

pub(crate) proof fn lemma_stamp_marks(list: Seq<EntityView>, marks: Seq<MarkView>, bucket: Bucket, mk: Seq<char>, n: int)
    requires
        0 <= n <= marks.len(),
        marks_apart(marks),
    ensures
        stamp_marks(list, marks.subrange(0, n), bucket, mk).len() == list.len(),
        forall|j: int, q: int| 0 <= j < list.len() && 0 <= q < n && #[trigger] sits(marks, q, bucket, j) ==> stamp_marks(
            list,
            marks.subrange(0, n),
            bucket,
            mk,
        )[j] == stamped_entity(list[j], mk, marks[q].token),
        forall|j: int| 0 <= j < list.len() && (forall|q: int| 0 <= q < n ==> !sits(marks, q, bucket, j)) ==> #[trigger] stamp_marks(
            list,
            marks.subrange(0, n),
            bucket,
            mk,
        )[j] == list[j],
    decreases n,
{
    let cur = marks.subrange(0, n);
    if n == 0 {
        assert(cur =~= Seq::<MarkView>::empty());
    } else {
        lemma_stamp_marks(list, marks, bucket, mk, n - 1);
        assert(cur.drop_last() =~= marks.subrange(0, n - 1));
        assert(cur.last() == marks[n - 1]);
        let prev = stamp_marks(list, marks.subrange(0, n - 1), bucket, mk);
        let mv = marks[n - 1];
        let r = stamp_marks(list, cur, bucket, mk);
        if mv.bucket == bucket && mv.idx < prev.len() {
            let i = mv.idx as int;
            assert forall|q: int| 0 <= q < n - 1 implies !sits(marks, q, bucket, i) by {}
            assert(prev[i] == list[i]);
            assert forall|j: int, q: int| 0 <= j < list.len() && 0 <= q < n && #[trigger] sits(marks, q, bucket, j) implies r[j]
                == stamped_entity(list[j], mk, marks[q].token) by {
                if q == n - 1 {
                } else {
                    assert(j != i);
                }
            }
            assert forall|j: int| 0 <= j < list.len() && (forall|q: int| 0 <= q < n ==> !sits(marks, q, bucket, j)) implies #[trigger] r[j]
                == list[j] by {
                assert(!sits(marks, n - 1, bucket, j));
            }
        } else {
            assert forall|j: int, q: int| 0 <= j < list.len() && 0 <= q < n && #[trigger] sits(marks, q, bucket, j) implies r[j]
                == stamped_entity(list[j], mk, marks[q].token) by {
                if q == n - 1 {
                    assert(mv.idx == j && j < prev.len());
                }
            }
        }
    }
}

pub(crate) proof fn lemma_join_created(
    list: Seq<EntityView>,
    marks: Seq<MarkView>,
    bucket: Bucket,
    ops: Seq<OpView>,
    id: i32,
    n: int,
)
    requires
        0 <= n <= marks.len(),
    ensures
        join_created(list, marks.subrange(0, n), bucket, ops, id).len() == list.len(),
        forall|j: int| 0 <= j < list.len() ==> (#[trigger] join_created(list, marks.subrange(0, n), bucket, ops, id)[j]).key_values
            == list[j].key_values && join_created(list, marks.subrange(0, n), bucket, ops, id)[j].connections
            == list[j].connections && join_created(list, marks.subrange(0, n), bucket, ops, id)[j].body == list[j].body,
        forall|j: int| 0 <= j < list.len() && (forall|q: int| 0 <= q < n && sits(marks, q, bucket, j) ==> !creates(ops, marks[q].token))
            ==> #[trigger] join_created(list, marks.subrange(0, n), bucket, ops, id)[j] == list[j],
    decreases n,
{
    let cur = marks.subrange(0, n);
    if n == 0 {
        assert(cur =~= Seq::<MarkView>::empty());
    } else {
        lemma_join_created(list, marks, bucket, ops, id, n - 1);
        assert(cur.drop_last() =~= marks.subrange(0, n - 1));
        assert(cur.last() == marks[n - 1]);
        let r = join_created(list, cur, bucket, ops, id);
        assert forall|j: int| 0 <= j < list.len() && (forall|q: int| 0 <= q < n && sits(marks, q, bucket, j) ==> !creates(ops, marks[q].token))
            implies #[trigger] r[j] == list[j] by {
            if marks[n - 1].bucket == bucket && marks[n - 1].idx == j {
                assert(sits(marks, n - 1, bucket, j));
            }
        }
    }
}

// ---------------------------------------------------------------------------
// The index of the compiled map.
// ---------------------------------------------------------------------------

pub(crate) proof fn lemma_marks_complete(list: Seq<EntityView>, key: Seq<char>, bucket: Bucket, n: int)
    requires
        0 <= n <= list.len(),
    ensures
        forall|i: int| 0 <= i < n && has_key(list[i].key_values, key) ==> exists|k: int|
            0 <= k < marks_in(list, key, bucket, n).len() && (#[trigger] marks_in(list, key, bucket, n)[k]).2 == i,
    decreases n,
{
    if n > 0 {
        lemma_marks_complete(list, key, bucket, n - 1);
        let prev = marks_in(list, key, bucket, n - 1);
        let cur = marks_in(list, key, bucket, n);
        assert forall|i: int| 0 <= i < n && has_key(list[i].key_values, key) implies exists|k: int|
            0 <= k < cur.len() && (#[trigger] cur[k]).2 == i by {
            if i < n - 1 {
                let k = choose|k: int| 0 <= k < prev.len() && (#[trigger] prev[k]).2 == i;
                assert(cur[k] == prev[k]);
            } else {
                assert(lookup(list[i].key_values, key) is Some);
                assert(cur[cur.len() - 1].2 == i);
            }
        }
    }
}

/// Where the marks sit in a compiled map: an entity carries the marker key
/// exactly where a mark sits, with that mark's token.
#[verifier::opaque]
pub open spec fn marked_as(c: MapView, marks: Seq<MarkView>, mk: Seq<char>) -> bool {
    &&& forall|q: int| 0 <= q < marks.len() ==> (#[trigger] marks[q]).idx < list_of(c, marks[q].bucket).len()
    &&& forall|b: Bucket, j: int, q: int| 0 <= j < list_of(c, b).len() && #[trigger] sits(marks, q, b, j) ==> lookup(
        list_of(c, b)[j].key_values,
        mk,
    ) == Some(marks[q].token)
    &&& forall|b: Bucket, j: int| 0 <= j < list_of(c, b).len() && (forall|q: int| !#[trigger] sits(marks, q, b, j)) ==> !has_key(
        #[trigger] list_of(c, b)[j].key_values,
        mk,
    )
}

pub(crate) proof fn lemma_index_split(c: MapView, mk: Seq<char>, k: int)
    requires
        0 <= k < marker_index(c, mk).len(),
    ensures
        0 <= marker_index(c, mk)[k].2 < list_of(c, marker_index(c, mk)[k].1).len(),
        lookup(list_of(c, marker_index(c, mk)[k].1)[marker_index(c, mk)[k].2].key_values, mk) == Some(
            marker_index(c, mk)[k].0,
        ),
{
    let e = marks_in(c.entities, mk, Bucket::Entity, c.entities.len() as int);
    let h = marks_in(c.hiddens, mk, Bucket::Hidden, c.hiddens.len() as int);
    let ix = marker_index(c, mk);
    lemma_marks_bounds(c.entities, mk, Bucket::Entity, c.entities.len() as int);
    lemma_marks_bounds(c.hiddens, mk, Bucket::Hidden, c.hiddens.len() as int);
    if k < e.len() {
        assert(ix[k] == e[k]);
    } else {
        assert(ix[k] == h[k - e.len()]);
    }
}

/// The mark behind entry `k` of the index.
pub(crate) proof fn lemma_entry_mark(c: MapView, marks: Seq<MarkView>, mk: Seq<char>, k: int) -> (q: int)
    requires
        marked_as(c, marks, mk),
        0 <= k < marker_index(c, mk).len(),
    ensures
        sits(marks, q, marker_index(c, mk)[k].1, marker_index(c, mk)[k].2),
        marker_index(c, mk)[k].0 == marks[q].token,
{
    reveal(marked_as);
    let ix = marker_index(c, mk);
    lemma_index_split(c, mk, k);
    let (b, j) = (ix[k].1, ix[k].2);
    if forall|q: int| !#[trigger] sits(marks, q, b, j) {
        assert(!has_key(list_of(c, b)[j].key_values, mk));
        assert(false);
        0
    } else {
        let q = choose|q: int| #[trigger] sits(marks, q, b, j);
        assert(lookup(list_of(c, b)[j].key_values, mk) == Some(marks[q].token));
        q
    }
}

/// The entry of the index behind mark `q`.
pub(crate) proof fn lemma_mark_entry(c: MapView, marks: Seq<MarkView>, mk: Seq<char>, q: int) -> (k: int)
    requires
        marked_as(c, marks, mk),
        0 <= q < marks.len(),
    ensures
        0 <= k < marker_index(c, mk).len(),
        marker_index(c, mk)[k].1 == marks[q].bucket,
        marker_index(c, mk)[k].2 == marks[q].idx,
{
    reveal(marked_as);
    let e = marks_in(c.entities, mk, Bucket::Entity, c.entities.len() as int);
    let h = marks_in(c.hiddens, mk, Bucket::Hidden, c.hiddens.len() as int);
    let ix = marker_index(c, mk);
    lemma_marks_bounds(c.entities, mk, Bucket::Entity, c.entities.len() as int);
    lemma_marks_bounds(c.hiddens, mk, Bucket::Hidden, c.hiddens.len() as int);
    let (b, j) = (marks[q].bucket, marks[q].idx as int);
    assert(sits(marks, q, b, j));
    assert(marks[q].idx < list_of(c, b).len());
    assert(lookup(list_of(c, b)[j].key_values, mk) == Some(marks[q].token));
    if b == Bucket::Entity {
        lemma_marks_complete(c.entities, mk, Bucket::Entity, c.entities.len() as int);
        let k = choose|k: int| 0 <= k < e.len() && (#[trigger] e[k]).2 == j;
        assert(ix[k] == e[k]);
        k
    } else {
        lemma_marks_complete(c.hiddens, mk, Bucket::Hidden, c.hiddens.len() as int);
        let k = choose|k: int| 0 <= k < h.len() && (#[trigger] h[k]).2 == j;
        assert(ix[e.len() + k] == h[k]);
        e.len() + k
    }
}

pub(crate) proof fn lemma_index_distinct(c: MapView, marks: Seq<MarkView>, mk: Seq<char>)
    requires
        marked_as(c, marks, mk),
        forall|q1: int, q2: int| 0 <= q1 < marks.len() && 0 <= q2 < marks.len() && q1 != q2 ==> marks[q1].token != marks[q2].token,
    ensures
        tokens_distinct(marker_index(c, mk)),
{
    let ix = marker_index(c, mk);
    lemma_index_wf(c, mk);
    assert forall|k: int, l: int| 0 <= k < ix.len() && 0 <= l < ix.len() && k != l implies ix[k].0 != ix[l].0 by {
        let qk = lemma_entry_mark(c, marks, mk, k);
        let ql = lemma_entry_mark(c, marks, mk, l);
        assert(ix[k].1 != ix[l].1 || ix[k].2 != ix[l].2);
    }
}

pub(crate) proof fn lemma_index_locates(c: MapView, marks: Seq<MarkView>, mk: Seq<char>, q: int)
    requires
        marked_as(c, marks, mk),
        marks_apart(marks),
        tokens_distinct(marker_index(c, mk)),
        0 <= q < marks.len(),
    ensures
        located(marker_index(c, mk), marks[q].token) == Some((marks[q].bucket, marks[q].idx as int)),
{
    let ix = marker_index(c, mk);
    let k = lemma_mark_entry(c, marks, mk, q);
    let q2 = lemma_entry_mark(c, marks, mk, k);
    assert(q2 == q);
    assert(ix[k].0 == marks[q].token);
    let k2 = choose|k2: int| 0 <= k2 < ix.len() && ix[k2].0 == marks[q].token;
    assert(k2 == k);
}

pub(crate) proof fn lemma_index_token_at(c: MapView, marks: Seq<MarkView>, mk: Seq<char>, b: Bucket, j: int)
    requires
        marked_as(c, marks, mk),
        marks_apart(marks),
    ensures
        forall|q: int| #[trigger] sits(marks, q, b, j) ==> token_at(marker_index(c, mk), b, j) == Some(marks[q].token),
        (forall|q: int| !#[trigger] sits(marks, q, b, j)) ==> token_at(marker_index(c, mk), b, j) is None,
{
    let ix = marker_index(c, mk);
    lemma_index_wf(c, mk);
    assert forall|q: int| #[trigger] sits(marks, q, b, j) implies token_at(ix, b, j) == Some(marks[q].token) by {
        let k = lemma_mark_entry(c, marks, mk, q);
        let k2 = choose|k2: int| 0 <= k2 < ix.len() && ix[k2].1 == b && ix[k2].2 == j;
        assert(k2 == k);
        let q2 = lemma_entry_mark(c, marks, mk, k);
        assert(q2 == q);
    }
    if exists|k: int| 0 <= k < ix.len() && ix[k].1 == b && ix[k].2 == j {
        let k = choose|k: int| 0 <= k < ix.len() && ix[k].1 == b && ix[k].2 == j;
        let q2 = lemma_entry_mark(c, marks, mk, k);
        assert(sits(marks, q2, b, j));
    }
}

pub(crate) proof fn lemma_index(c: MapView, marks: Seq<MarkView>, mk: Seq<char>)
    requires
        marked_as(c, marks, mk),
        marks_apart(marks),
        forall|q1: int, q2: int| 0 <= q1 < marks.len() && 0 <= q2 < marks.len() && q1 != q2 ==> marks[q1].token != marks[q2].token,
    ensures
        tokens_distinct(marker_index(c, mk)),
        forall|q: int| 0 <= q < marks.len() ==> located(marker_index(c, mk), (#[trigger] marks[q]).token) == Some(
            (marks[q].bucket, marks[q].idx as int),
        ),
        forall|b: Bucket, j: int, q: int| #[trigger] sits(marks, q, b, j) ==> token_at(marker_index(c, mk), b, j) == Some(marks[q].token),
        forall|b: Bucket, j: int| (forall|q: int| !#[trigger] sits(marks, q, b, j)) ==> #[trigger] token_at(marker_index(c, mk), b, j) is None,
{
    lemma_index_distinct(c, marks, mk);
    assert forall|q: int| 0 <= q < marks.len() implies located(marker_index(c, mk), (#[trigger] marks[q]).token) == Some(
        (marks[q].bucket, marks[q].idx as int),
    ) by {
        lemma_index_locates(c, marks, mk, q);
    }
    assert forall|b: Bucket, j: int, q: int| #[trigger] sits(marks, q, b, j) implies token_at(marker_index(c, mk), b, j) == Some(
        marks[q].token,
    ) by {
        lemma_index_token_at(c, marks, mk, b, j);
    }
    assert forall|b: Bucket, j: int| (forall|q: int| !#[trigger] sits(marks, q, b, j)) implies #[trigger] token_at(
        marker_index(c, mk),
        b,
        j,
    ) is None by {
        lemma_index_token_at(c, marks, mk, b, j);
    }
}

} // verus!
