//! What a rollback does to the keyvalues of one entity, and why it gives the
//! original keyvalues back.
//!
//! A rollback replays the journal in three passes over an entity's keyvalues:
//! first the values the tool changed go back, then the keys the tool added go,
//! then the keys the tool removed come back, in ascending order of the position
//! they had. Each removed key remembers its position in the original, and that
//! position only means something once every earlier key is back in place, which
//! is why the passes come in this order.

use vstd::prelude::*;

use crate::diff::{keyvalue_diff, undo_after, undo_before, undo_entry};
use crate::kv::{distinct_keys, has_key, key_at, key_pos, keys_of, lemma_key_pos_unique, lookup, Entries};
use crate::ops::OpView;

verus! {

// ---------------------------------------------------------------------------
// The three passes.
// ---------------------------------------------------------------------------

/// `IndexMap::insert` on entries: an existing key keeps its place.
pub open spec fn put(e: Entries, k: Seq<char>, v: Seq<char>) -> Entries {
    if has_key(e, k) {
        e.update(key_pos(e, k), (k, v))
    } else {
        e.push((k, v))
    }
}

/// `IndexMap::shift_remove` on entries.
pub open spec fn drop_key(e: Entries, k: Seq<char>) -> Entries {
    if has_key(e, k) {
        e.remove(key_pos(e, k))
    } else {
        e
    }
}

/// Puts a removed key back at the position it had, or at the end where the list
/// has become shorter than that. A key that is present again is moved there
/// instead, at most to the last position.
pub open spec fn reinsert(e: Entries, idx: nat, k: Seq<char>, v: Seq<char>) -> Entries {
    if has_key(e, k) {
        let at = if idx < e.len() - 1 {
            idx as int
        } else {
            e.len() - 1
        };
        e.remove(key_pos(e, k)).insert(at, (k, v))
    } else {
        let at = if idx < e.len() {
            idx as int
        } else {
            e.len() as int
        };
        e.insert(at, (k, v))
    }
}

/// First pass: every changed value goes back, in journal order.
pub open spec fn undo_changes(e: Entries, ops: Seq<OpView>) -> Entries
    decreases ops.len(),
{
    if ops.len() == 0 {
        e
    } else {
        let prev = undo_changes(e, ops.drop_last());
        match ops.last() {
            OpView::Change { key, old, .. } => put(prev, key, old),
            _ => prev,
        }
    }
}

/// Second pass: every added key goes, in journal order.
pub open spec fn undo_additions(e: Entries, ops: Seq<OpView>) -> Entries
    decreases ops.len(),
{
    if ops.len() == 0 {
        e
    } else {
        let prev = undo_additions(e, ops.drop_last());
        match ops.last() {
            OpView::Add { key, .. } => drop_key(prev, key),
            _ => prev,
        }
    }
}

/// Third pass: the removed keys come back, in the order given.
pub open spec fn undo_removals(e: Entries, ops: Seq<OpView>) -> Entries
    decreases ops.len(),
{
    if ops.len() == 0 {
        e
    } else {
        let prev = undo_removals(e, ops.drop_last());
        match ops.last() {
            OpView::Remove { idx, key, old, .. } => reinsert(prev, idx, key, old),
            _ => prev,
        }
    }
}

/// The position a removal carries (0 for other operations).
pub open spec fn removal_idx(op: OpView) -> nat {
    match op {
        OpView::Remove { idx, .. } => idx,
        _ => 0,
    }
}

/// Inserts `x` into `s`, which is sorted by position, after every entry at the
/// same or an earlier position.
pub open spec fn insert_sorted(s: Seq<OpView>, x: OpView) -> Seq<OpView>
    decreases s.len(),
{
    if s.len() == 0 {
        seq![x]
    } else if removal_idx(s.last()) <= removal_idx(x) {
        s.push(x)
    } else {
        insert_sorted(s.drop_last(), x).push(s.last())
    }
}

/// The removals among `ops`, sorted by position; removals at the same position
/// keep their journal order.
pub open spec fn sorted_removals(ops: Seq<OpView>) -> Seq<OpView>
    decreases ops.len(),
{
    if ops.len() == 0 {
        Seq::empty()
    } else {
        let prev = sorted_removals(ops.drop_last());
        if ops.last() is Remove {
            insert_sorted(prev, ops.last())
        } else {
            prev
        }
    }
}

/// What a rollback does to the keyvalues `e` of an entity, given the journal
/// operations about that entity.
pub open spec fn rollback_keyvalues(e: Entries, ops: Seq<OpView>) -> Entries {
    undo_removals(undo_additions(undo_changes(e, ops), ops), sorted_removals(ops))
}

/// The operations stamped with token `t`.
pub open spec fn stamp(ops: Seq<OpView>, t: Seq<char>) -> Seq<OpView> {
    ops.map_values(|o: OpView| o.with_at(t))
}

// ---------------------------------------------------------------------------
// Subsequences picked by position.
// ---------------------------------------------------------------------------

/// The entries among the first `n` of `s` whose position satisfies `keep`.
pub open spec fn pick(s: Entries, keep: spec_fn(int) -> bool, n: int) -> Entries
    decreases n,
{
    if n <= 0 {
        Seq::empty()
    } else if keep(n - 1) {
        pick(s, keep, n - 1).push(s[n - 1])
    } else {
        pick(s, keep, n - 1)
    }
}

/// How many of the first `n` positions satisfy `keep`.
pub open spec fn cnt(keep: spec_fn(int) -> bool, n: int) -> int
    decreases n,
{
    if n <= 0 {
        0
    } else {
        cnt(keep, n - 1) + if keep(n - 1) {
            1int
        } else {
            0int
        }
    }
}

/// The keys that both sides have, listed in the order of `after`, are the same
/// list as those keys in the order of `before`: the tool may have changed,
/// added and removed keys, but it did not move the ones it kept.
pub open spec fn shared_in_order(before: Entries, after: Entries) -> bool {
    keys_of(pick(after, also_in(after, before), after.len() as int)) == keys_of(
        pick(before, also_in(before, after), before.len() as int),
    )
}

/// The positions of `s` whose key `other` has too.
pub open spec fn also_in(s: Entries, other: Entries) -> spec_fn(int) -> bool {
    |i: int| has_key(other, s[i].0)
}

proof fn lemma_cnt_bounds(keep: spec_fn(int) -> bool, n: int)
    requires
        0 <= n,
    ensures
        0 <= cnt(keep, n) <= n,
        pick(Seq::empty(), keep, 0) == Seq::<(Seq<char>, Seq<char>)>::empty(),
    decreases n,
{
    if n > 0 {
        lemma_cnt_bounds(keep, n - 1);
    }
}

proof fn lemma_pick_len(s: Entries, keep: spec_fn(int) -> bool, n: int)
    requires
        0 <= n,
    ensures
        pick(s, keep, n).len() == cnt(keep, n),
    decreases n,
{
    if n > 0 {
        lemma_pick_len(s, keep, n - 1);
    }
}

proof fn lemma_cnt_mono(keep: spec_fn(int) -> bool, i: int, j: int)
    requires
        0 <= i <= j,
    ensures
        0 <= cnt(keep, i) <= cnt(keep, j),
        i < j && keep(i) ==> cnt(keep, i) + 1 <= cnt(keep, j),
    decreases j,
{
    lemma_cnt_bounds(keep, i);
    if i < j {
        lemma_cnt_mono(keep, i, j - 1);
    }
}

pub(crate) proof fn lemma_pick_ext(s: Entries, p: spec_fn(int) -> bool, q: spec_fn(int) -> bool, n: int)
    requires
        forall|i: int| 0 <= i < n ==> #[trigger] p(i) == q(i),
    ensures
        pick(s, p, n) == pick(s, q, n),
    decreases n,
{
    if n > 0 {
        lemma_pick_ext(s, p, q, n - 1);
    }
}

proof fn lemma_cnt_all(keep: spec_fn(int) -> bool, n: int)
    requires
        0 <= n,
        forall|i: int| 0 <= i < n ==> #[trigger] keep(i),
    ensures
        cnt(keep, n) == n,
    decreases n,
{
    if n > 0 {
        lemma_cnt_all(keep, n - 1);
    }
}

proof fn lemma_pick_all(s: Entries, keep: spec_fn(int) -> bool, n: int)
    requires
        0 <= n <= s.len(),
        forall|i: int| 0 <= i < n ==> #[trigger] keep(i),
    ensures
        pick(s, keep, n) == s.subrange(0, n),
    decreases n,
{
    if n > 0 {
        lemma_pick_all(s, keep, n - 1);
        assert(s.subrange(0, n - 1).push(s[n - 1]) =~= s.subrange(0, n));
    } else {
        assert(s.subrange(0, 0) =~= Seq::<(Seq<char>, Seq<char>)>::empty());
    }
}

/// The entry of `s` at a kept position `i` sits at `cnt(keep, i)` in the
/// subsequence.
proof fn lemma_pick_index(s: Entries, keep: spec_fn(int) -> bool, n: int, i: int)
    requires
        0 <= i < n <= s.len(),
        keep(i),
    ensures
        cnt(keep, i) < pick(s, keep, n).len(),
        pick(s, keep, n)[cnt(keep, i)] == s[i],
    decreases n,
{
    lemma_pick_len(s, keep, n - 1);
    lemma_pick_len(s, keep, n);
    lemma_cnt_mono(keep, i, n - 1);
    if i == n - 1 {
        assert(pick(s, keep, n) == pick(s, keep, n - 1).push(s[n - 1]));
    } else {
        lemma_pick_index(s, keep, n - 1, i);
        if keep(n - 1) {
            assert(pick(s, keep, n) == pick(s, keep, n - 1).push(s[n - 1]));
        }
    }
}

/// Every entry of the subsequence comes from a kept position.
proof fn lemma_pick_origin(s: Entries, keep: spec_fn(int) -> bool, n: int, k: int)
    requires
        0 <= n <= s.len(),
        0 <= k < pick(s, keep, n).len(),
    ensures
        exists|i: int| 0 <= i < n && keep(i) && cnt(keep, i) == k && pick(s, keep, n)[k] == s[i],
    decreases n,
{
    lemma_pick_len(s, keep, n - 1);
    if keep(n - 1) && k == cnt(keep, n - 1) {
        assert(pick(s, keep, n)[k] == s[n - 1]);
    } else {
        lemma_pick_origin(s, keep, n - 1, k);
        let i = choose|i: int|
            0 <= i < n - 1 && keep(i) && cnt(keep, i) == k && pick(s, keep, n - 1)[k] == s[i];
        assert(0 <= i < n && keep(i) && cnt(keep, i) == k && pick(s, keep, n)[k] == s[i]);
    }
}

proof fn lemma_pick_distinct(s: Entries, keep: spec_fn(int) -> bool, n: int)
    requires
        0 <= n <= s.len(),
        distinct_keys(s),
    ensures
        distinct_keys(pick(s, keep, n)),
{
    let t = pick(s, keep, n);
    assert forall|a: int, b: int| 0 <= a < t.len() && 0 <= b < t.len() && a != b implies t[a].0
        != t[b].0 by {
        lemma_pick_origin(s, keep, n, a);
        lemma_pick_origin(s, keep, n, b);
        let ia = choose|i: int| 0 <= i < n && keep(i) && cnt(keep, i) == a && t[a] == s[i];
        let ib = choose|i: int| 0 <= i < n && keep(i) && cnt(keep, i) == b && t[b] == s[i];
        assert(ia != ib);
    }
}

/// In a subsequence of a list with distinct keys, a kept entry is found at the
/// number of kept positions before it.
proof fn lemma_pick_key_pos(s: Entries, keep: spec_fn(int) -> bool, n: int, i: int)
    requires
        0 <= i < n <= s.len(),
        keep(i),
        distinct_keys(s),
    ensures
        has_key(pick(s, keep, n), s[i].0),
        key_pos(pick(s, keep, n), s[i].0) == cnt(keep, i),
{
    lemma_pick_index(s, keep, n, i);
    lemma_cnt_bounds(keep, i);
    lemma_pick_distinct(s, keep, n);
    lemma_key_pos_unique(pick(s, keep, n), s[i].0, cnt(keep, i));
}

/// A key of a distinct-key list at a position that is not kept is absent from
/// the subsequence.
proof fn lemma_pick_lacks(s: Entries, keep: spec_fn(int) -> bool, n: int, i: int)
    requires
        0 <= i < s.len(),
        0 <= n <= s.len(),
        !keep(i) || i >= n,
        distinct_keys(s),
    ensures
        !has_key(pick(s, keep, n), s[i].0),
{
    if has_key(pick(s, keep, n), s[i].0) {
        let k = choose|k: int| #[trigger] key_at(pick(s, keep, n), s[i].0, k);
        lemma_pick_origin(s, keep, n, k);
    }
}

/// Inserting a position that was left out.
proof fn lemma_pick_insert(s: Entries, keep: spec_fn(int) -> bool, n: int, r: int)
    requires
        0 <= r < n <= s.len(),
        !keep(r),
    ensures
        pick(s, keep, n).insert(cnt(keep, r), s[r]) == pick(s, |j: int| keep(j) || j == r, n),
    decreases n,
{
    let q = |j: int| keep(j) || j == r;
    lemma_pick_len(s, keep, n - 1);
    lemma_cnt_mono(keep, r, n - 1);
    if r == n - 1 {
        lemma_pick_ext(s, keep, q, n - 1);
        assert(pick(s, keep, n).insert(cnt(keep, r), s[r]) =~= pick(s, keep, n - 1).push(s[r]));
    } else {
        lemma_pick_insert(s, keep, n - 1, r);
        let x = pick(s, keep, n - 1);
        let c = cnt(keep, r);
        assert(c <= x.len());
        if keep(n - 1) {
            x.insert_ensures(c, s[r]);
            x.push(s[n - 1]).insert_ensures(c, s[r]);
            assert(x.push(s[n - 1]).insert(c, s[r]) =~= x.insert(c, s[r]).push(s[n - 1]));
        }
    }
}

/// Dropping a position that was kept.
proof fn lemma_pick_remove(s: Entries, keep: spec_fn(int) -> bool, n: int, r: int)
    requires
        0 <= r < n <= s.len(),
        keep(r),
    ensures
        pick(s, keep, n).remove(cnt(keep, r)) == pick(s, |j: int| keep(j) && j != r, n),
    decreases n,
{
    let q = |j: int| keep(j) && j != r;
    lemma_pick_len(s, keep, n - 1);
    lemma_cnt_mono(keep, r, n - 1);
    if r == n - 1 {
        lemma_pick_ext(s, keep, q, n - 1);
        assert(pick(s, keep, n).remove(cnt(keep, r)) =~= pick(s, keep, n - 1));
    } else {
        lemma_pick_remove(s, keep, n - 1, r);
        let x = pick(s, keep, n - 1);
        let c = cnt(keep, r);
        lemma_pick_index(s, keep, n - 1, r);
        assert(c < x.len());
        if keep(n - 1) {
            x.remove_ensures(c);
            x.push(s[n - 1]).remove_ensures(c);
            assert(x.push(s[n - 1]).remove(c) =~= x.remove(c).push(s[n - 1]));
        }
    }
}

// ---------------------------------------------------------------------------
// The passes over concatenated journals.
// ---------------------------------------------------------------------------

proof fn lemma_changes_append(e: Entries, a: Seq<OpView>, b: Seq<OpView>)
    ensures
        undo_changes(e, a + b) == undo_changes(undo_changes(e, a), b),
    decreases b.len(),
{
    if b.len() == 0 {
        assert(a + b =~= a);
    } else {
        lemma_changes_append(e, a, b.drop_last());
        assert((a + b).drop_last() =~= a + b.drop_last());
    }
}

proof fn lemma_additions_append(e: Entries, a: Seq<OpView>, b: Seq<OpView>)
    ensures
        undo_additions(e, a + b) == undo_additions(undo_additions(e, a), b),
    decreases b.len(),
{
    if b.len() == 0 {
        assert(a + b =~= a);
    } else {
        lemma_additions_append(e, a, b.drop_last());
        assert((a + b).drop_last() =~= a + b.drop_last());
    }
}

/// The stamped first part of a diff holds no additions.
proof fn lemma_before_no_adds(before: Entries, after: Entries, t: Seq<char>, n: int)
    requires
        0 <= n <= before.len(),
    ensures
        forall|k: int|
            0 <= k < stamp(undo_before(before, after, n), t).len() ==> !(#[trigger] stamp(
                undo_before(before, after, n),
                t,
            )[k] is Add),
    decreases n,
{
    if n > 0 {
        lemma_before_no_adds(before, after, t, n - 1);
        let prev = undo_before(before, after, n - 1);
        let step = undo_entry(before, after, n - 1);
        assert(stamp(undo_before(before, after, n), t) =~= stamp(prev, t) + stamp(step, t));
    }
}

/// The stamped second part of a diff holds nothing but additions.
proof fn lemma_after_all_adds(before: Entries, after: Entries, t: Seq<char>, m: int)
    requires
        0 <= m <= after.len(),
    ensures
        forall|k: int|
            0 <= k < stamp(undo_after(before, after, m), t).len() ==> (#[trigger] stamp(
                undo_after(before, after, m),
                t,
            )[k] is Add),
    decreases m,
{
    if m > 0 {
        lemma_after_all_adds(before, after, t, m - 1);
        let prev = undo_after(before, after, m - 1);
        if !has_key(before, after[m - 1].0) {
            assert(stamp(undo_after(before, after, m), t) =~= stamp(prev, t).push(
                OpView::Add { at: t, key: after[m - 1].0, new: after[m - 1].1 },
            ));
        } else {
            assert(stamp(undo_after(before, after, m), t) =~= stamp(prev, t));
        }
    }
}

proof fn lemma_changes_none(e: Entries, ops: Seq<OpView>)
    requires
        forall|k: int| 0 <= k < ops.len() ==> (#[trigger] ops[k] is Add),
    ensures
        undo_changes(e, ops) == e,
        undo_removals(e, ops) == e,
        sorted_removals(ops) == Seq::<OpView>::empty(),
    decreases ops.len(),
{
    if ops.len() > 0 {
        lemma_changes_none(e, ops.drop_last());
        assert(ops.last() is Add);
    }
}

proof fn lemma_additions_none(e: Entries, ops: Seq<OpView>)
    requires
        forall|k: int| 0 <= k < ops.len() ==> !(#[trigger] ops[k] is Add),
    ensures
        undo_additions(e, ops) == e,
    decreases ops.len(),
{
    if ops.len() > 0 {
        lemma_additions_none(e, ops.drop_last());
        assert(!(ops.last() is Add));
    }
}

// ---------------------------------------------------------------------------
// First pass on a diff: the changed values go back.
// ---------------------------------------------------------------------------

/// `after` with the values of the keys among the first `n` of `before` taken
/// from `before`.
pub open spec fn values_from(before: Entries, after: Entries, n: int) -> Entries {
    Seq::new(
        after.len(),
        |i: int|
            if has_key(before.subrange(0, n), after[i].0) {
                (after[i].0, before[key_pos(before, after[i].0)].1)
            } else {
                after[i]
            },
    )
}

proof fn lemma_first_pass(before: Entries, after: Entries, t: Seq<char>, n: int)
    requires
        0 <= n <= before.len(),
        distinct_keys(before),
        distinct_keys(after),
    ensures
        undo_changes(after, stamp(undo_before(before, after, n), t)) == values_from(
            before,
            after,
            n,
        ),
    decreases n,
{
    if n == 0 {
        assert forall|i: int| 0 <= i < after.len() implies !has_key(
            before.subrange(0, 0),
            #[trigger] after[i].0,
        ) by {}
        assert(values_from(before, after, 0) =~= after);
        assert(stamp(undo_before(before, after, 0), t) =~= Seq::<OpView>::empty());
        assert(undo_changes(after, Seq::<OpView>::empty()) == after);
    } else {
        lemma_first_pass(before, after, t, n - 1);
        let prev = undo_before(before, after, n - 1);
        let step = undo_entry(before, after, n - 1);
        assert(stamp(undo_before(before, after, n), t) =~= stamp(prev, t) + stamp(step, t));
        lemma_changes_append(after, stamp(prev, t), stamp(step, t));
        let cur = values_from(before, after, n - 1);
        let k = before[n - 1].0;
        let v = before[n - 1].1;
        lemma_key_pos_unique(before, k, n - 1);
        assert forall|i: int| 0 <= i < after.len() && (#[trigger] after[i]).0 != k implies (
        has_key(before.subrange(0, n - 1), after[i].0) == has_key(
            before.subrange(0, n),
            after[i].0,
        )) by {
            if has_key(before.subrange(0, n), after[i].0) && after[i].0 != k {
                let j = choose|j: int| #[trigger] key_at(before.subrange(0, n), after[i].0, j);
                assert(key_at(before.subrange(0, n - 1), after[i].0, j));
            }
            if has_key(before.subrange(0, n - 1), after[i].0) {
                let j = choose|j: int| #[trigger] key_at(before.subrange(0, n - 1), after[i].0, j);
                assert(key_at(before.subrange(0, n), after[i].0, j));
            }
        }
        assert(key_at(before.subrange(0, n), k, n - 1));
        assert(!has_key(before.subrange(0, n - 1), k)) by {
            if has_key(before.subrange(0, n - 1), k) {
                let j = choose|j: int| #[trigger] key_at(before.subrange(0, n - 1), k, j);
                assert(before[j].0 == before[n - 1].0);
            }
        }
        match lookup(after, k) {
            Some(nv) => {
                let pos = key_pos(after, k);
                lemma_key_pos_unique(after, k, pos);
                assert(cur[pos].0 == after[pos].0);
                assert(key_at(cur, k, pos));
                assert(distinct_keys(cur));
                lemma_key_pos_unique(cur, k, pos);
                if nv != v {
                    assert(stamp(step, t) =~= seq![
                        OpView::Change { at: t, key: k, old: v, new: nv },
                    ]);
                    assert(stamp(step, t).drop_last() =~= Seq::<OpView>::empty());
                    assert(undo_changes(cur, Seq::<OpView>::empty()) == cur);
                    assert(undo_changes(cur, stamp(step, t)) == put(cur, k, v));
                    assert(put(cur, k, v) =~= values_from(before, after, n));
                } else {
                    assert(stamp(step, t) =~= Seq::<OpView>::empty());
                    assert(undo_changes(cur, stamp(step, t)) == cur);
                    assert(cur =~= values_from(before, after, n));
                }
            },
            None => {
                assert(stamp(step, t) =~= seq![
                    OpView::Remove { at: t, idx: (n - 1) as nat, key: k, old: v },
                ]);
                assert(stamp(step, t).drop_last() =~= Seq::<OpView>::empty());
                assert(undo_changes(cur, Seq::<OpView>::empty()) == cur);
                assert(undo_changes(cur, stamp(step, t)) == cur);
                assert forall|i: int| 0 <= i < after.len() implies after[i].0 != k by {
                    if after[i].0 == k {
                        assert(key_at(after, k, i));
                    }
                }
                assert(cur =~= values_from(before, after, n));
            },
        }
    }
}

// ---------------------------------------------------------------------------
// Second pass on a diff: the added keys go.
// ---------------------------------------------------------------------------

proof fn lemma_values_from_keys(before: Entries, after: Entries, n: int)
    requires
        distinct_keys(after),
    ensures
        keys_of(values_from(before, after, n)) == keys_of(after),
        distinct_keys(values_from(before, after, n)),
        values_from(before, after, n).len() == after.len(),
{
    assert(keys_of(values_from(before, after, n)) =~= keys_of(after));
}

/// Positions still to be examined, or already found in `before`.
pub open spec fn pending_or_in(after: Entries, before: Entries, m: int) -> spec_fn(int) -> bool {
    |i: int| i >= m || has_key(before, after[i].0)
}

proof fn lemma_second_pass(before: Entries, after: Entries, t: Seq<char>, m: int)
    requires
        0 <= m <= after.len(),
        distinct_keys(after),
    ensures
        undo_additions(
            values_from(before, after, before.len() as int),
            stamp(undo_after(before, after, m), t),
        ) == pick(
            values_from(before, after, before.len() as int),
            pending_or_in(after, before, m),
            after.len() as int,
        ),
    decreases m,
{
    let a1 = values_from(before, after, before.len() as int);
    lemma_values_from_keys(before, after, before.len() as int);
    let n = after.len() as int;
    if m == 0 {
        assert(stamp(undo_after(before, after, 0), t) =~= Seq::<OpView>::empty());
        assert(undo_additions(a1, Seq::<OpView>::empty()) == a1);
        lemma_pick_all(a1, pending_or_in(after, before, 0), n);
        assert(a1.subrange(0, n) =~= a1);
    } else {
        lemma_second_pass(before, after, t, m - 1);
        let q = pending_or_in(after, before, m - 1);
        let cur = pick(a1, q, n);
        let k = after[m - 1].0;
        assert(keys_of(a1)[m - 1] == k);
        if !has_key(before, k) {
            let op = OpView::Add { at: t, key: k, new: after[m - 1].1 };
            assert(stamp(undo_after(before, after, m), t) =~= stamp(
                undo_after(before, after, m - 1),
                t,
            ).push(op));
            assert(stamp(undo_after(before, after, m), t).drop_last() =~= stamp(
                undo_after(before, after, m - 1),
                t,
            ));
            assert(a1[m - 1].0 == k);
            assert(q(m - 1));
            lemma_pick_key_pos(a1, q, n, m - 1);
            lemma_pick_remove(a1, q, n, m - 1);
            lemma_pick_ext(
                a1,
                |j: int| q(j) && j != m - 1,
                pending_or_in(after, before, m),
                n,
            );
        } else {
            assert(stamp(undo_after(before, after, m), t) =~= stamp(
                undo_after(before, after, m - 1),
                t,
            ));
            lemma_pick_ext(a1, q, pending_or_in(after, before, m), n);
        }
    }
}

// ---------------------------------------------------------------------------
// What is left after two passes: the shared keys, as `before` has them.
// ---------------------------------------------------------------------------

proof fn lemma_pick_same_keys(s1: Entries, s2: Entries, p: spec_fn(int) -> bool, n: int)
    requires
        0 <= n <= s1.len(),
        keys_of(s1) == keys_of(s2),
    ensures
        keys_of(pick(s1, p, n)) == keys_of(pick(s2, p, n)),
    decreases n,
{
    if n > 0 {
        lemma_pick_same_keys(s1, s2, p, n - 1);
        assert(keys_of(s1).len() == s1.len() && keys_of(s2).len() == s2.len());
        assert(keys_of(s1)[n - 1] == keys_of(s2)[n - 1]);
        assert(s1[n - 1].0 == s2[n - 1].0);
        if p(n - 1) {
            assert(keys_of(pick(s1, p, n)) =~= keys_of(pick(s1, p, n - 1)).push(s1[n - 1].0));
            assert(keys_of(pick(s2, p, n)) =~= keys_of(pick(s2, p, n - 1)).push(s2[n - 1].0));
        }
    }
}

proof fn lemma_bridge(before: Entries, after: Entries)
    requires
        distinct_keys(before),
        distinct_keys(after),
        shared_in_order(before, after),
    ensures
        pick(
            values_from(before, after, before.len() as int),
            also_in(after, before),
            after.len() as int,
        ) == pick(before, also_in(before, after), before.len() as int),
{
    let a1 = values_from(before, after, before.len() as int);
    lemma_values_from_keys(before, after, before.len() as int);
    let x = pick(a1, also_in(after, before), after.len() as int);
    let y = pick(before, also_in(before, after), before.len() as int);
    lemma_pick_same_keys(a1, after, also_in(after, before), after.len() as int);
    assert(keys_of(x) == keys_of(y));
    assert(x.len() == keys_of(x).len() && y.len() == keys_of(y).len());
    assert(before.subrange(0, before.len() as int) =~= before);
    assert forall|k: int| 0 <= k < x.len() implies x[k] == y[k] by {
        assert(keys_of(x)[k] == keys_of(y)[k]);
        lemma_pick_origin(a1, also_in(after, before), after.len() as int, k);
        let i = choose|i: int|
            0 <= i < after.len() && also_in(after, before)(i) && cnt(also_in(after, before), i)
                == k && x[k] == a1[i];
        lemma_pick_origin(before, also_in(before, after), before.len() as int, k);
        let j = choose|j: int|
            0 <= j < before.len() && also_in(before, after)(j) && cnt(also_in(before, after), j)
                == k && y[k] == before[j];
        lemma_key_pos_unique(before, before[j].0, j);
        assert(has_key(before, after[i].0));
        assert(x[k] == (after[i].0, before[key_pos(before, after[i].0)].1));
    }
    assert(x =~= y);
}

// ---------------------------------------------------------------------------
// Third pass on a diff: the removed keys come back, each at its position.
// ---------------------------------------------------------------------------

proof fn lemma_sorted_append_other(a: Seq<OpView>, b: Seq<OpView>)
    requires
        forall|k: int| 0 <= k < b.len() ==> (#[trigger] b[k] is Add),
    ensures
        sorted_removals(a + b) == sorted_removals(a),
    decreases b.len(),
{
    if b.len() == 0 {
        assert(a + b =~= a);
    } else {
        lemma_sorted_append_other(a, b.drop_last());
        assert((a + b).drop_last() =~= a + b.drop_last());
        assert(b.last() is Add);
    }
}

/// Positions shared with `after`, or before `n`.
pub open spec fn shared_or_below(before: Entries, after: Entries, n: int) -> spec_fn(int) -> bool {
    |i: int| has_key(after, before[i].0) || i < n
}

proof fn lemma_third_pass(before: Entries, after: Entries, t: Seq<char>, n: int)
    requires
        0 <= n <= before.len(),
        distinct_keys(before),
    ensures
        forall|k: int|
            0 <= k < sorted_removals(stamp(undo_before(before, after, n), t)).len() ==> (
            #[trigger] sorted_removals(stamp(undo_before(before, after, n), t))[k] is Remove
                && removal_idx(sorted_removals(stamp(undo_before(before, after, n), t))[k]) < n),
        undo_removals(
            pick(before, also_in(before, after), before.len() as int),
            sorted_removals(stamp(undo_before(before, after, n), t)),
        ) == pick(before, shared_or_below(before, after, n), before.len() as int),
    decreases n,
{
    let len = before.len() as int;
    let p0 = pick(before, also_in(before, after), len);
    if n == 0 {
        assert(stamp(undo_before(before, after, 0), t) =~= Seq::<OpView>::empty());
        assert(undo_removals(p0, Seq::<OpView>::empty()) == p0);
        lemma_pick_ext(before, also_in(before, after), shared_or_below(before, after, 0), len);
    } else {
        lemma_third_pass(before, after, t, n - 1);
        let prev = stamp(undo_before(before, after, n - 1), t);
        let step = stamp(undo_entry(before, after, n - 1), t);
        assert(stamp(undo_before(before, after, n), t) =~= prev + step);
        let sp = sorted_removals(prev);
        let q = shared_or_below(before, after, n - 1);
        let cur = pick(before, q, len);
        let k = before[n - 1].0;
        let v = before[n - 1].1;
        if has_key(after, k) {
            if step.len() == 1 {
                assert(step[0] is Change);
                assert((prev + step).drop_last() =~= prev);
            } else {
                assert(prev + step =~= prev);
            }
            assert(sorted_removals(prev + step) == sp);
            lemma_pick_ext(before, q, shared_or_below(before, after, n), len);
        } else {
            let op = OpView::Remove { at: t, idx: (n - 1) as nat, key: k, old: v };
            assert(step =~= seq![op]);
            assert((prev + step).drop_last() =~= prev);
            assert((prev + step).last() == op);
            assert(sorted_removals(prev + step) == insert_sorted(sp, op));
            if sp.len() > 0 {
                assert(removal_idx(sp.last()) < n - 1);
            }
            assert(insert_sorted(sp, op) == sp.push(op));
            assert(sp.push(op).drop_last() =~= sp);
            assert(undo_removals(p0, sp.push(op)) == reinsert(cur, (n - 1) as nat, k, v));
            assert(!q(n - 1));
            lemma_pick_lacks(before, q, len, n - 1);
            lemma_pick_len(before, q, len);
            assert forall|i: int| 0 <= i < n - 1 implies #[trigger] q(i) by {}
            lemma_cnt_all(q, n - 1);
            lemma_cnt_mono(q, n - 1, len);
            lemma_pick_insert(before, q, len, n - 1);
            lemma_pick_ext(
                before,
                |j: int| q(j) || j == n - 1,
                shared_or_below(before, after, n),
                len,
            );
        }
    }
}

// ---------------------------------------------------------------------------
// The law.
// ---------------------------------------------------------------------------

/// Rolling an entity's keyvalues back with the operations that the diff records
/// for them gives back exactly the keyvalues it had before the tool ran, values
/// and order alike, whatever the tool changed, added or removed, as long as it
/// did not move a key it kept.
pub proof fn law_keyvalues_roll_back(before: Entries, after: Entries, t: Seq<char>)
    requires
        distinct_keys(before),
        distinct_keys(after),
        shared_in_order(before, after),
    ensures
        rollback_keyvalues(after, stamp(keyvalue_diff(before, after), t)) == before,
{
    let nb = before.len() as int;
    let na = after.len() as int;
    let d1 = stamp(undo_before(before, after, nb), t);
    let d2 = stamp(undo_after(before, after, na), t);
    assert(stamp(keyvalue_diff(before, after), t) =~= d1 + d2);
    lemma_before_no_adds(before, after, t, nb);
    lemma_after_all_adds(before, after, t, na);
    // first pass
    lemma_changes_append(after, d1, d2);
    lemma_first_pass(before, after, t, nb);
    lemma_changes_none(values_from(before, after, nb), d2);
    let a1 = values_from(before, after, nb);
    // second pass
    lemma_additions_append(a1, d1, d2);
    lemma_additions_none(a1, d1);
    lemma_second_pass(before, after, t, na);
    lemma_pick_ext(a1, pending_or_in(after, before, na), also_in(after, before), na);
    lemma_bridge(before, after);
    // third pass
    lemma_sorted_append_other(d1, d2);
    lemma_third_pass(before, after, t, nb);
    lemma_pick_all(before, shared_or_below(before, after, nb), nb);
    assert(before.subrange(0, nb) =~= before);
}

} // verus!
