//! A rollback does not depend on the order in which a journal lists the keys
//! it removed: they go back in ascending order of position whatever the list.

use vstd::prelude::*;

use crate::kv::Entries;
use crate::model::{ConnectionView, EntityView};
use crate::ops::{Bucket, OpView};
use crate::rollback::{
    for_token, lemma_sorted_removals_sorted, ops_at, rolled_back, rolled_list, sorted_by_idx,
    undo_connections,
};
use crate::undo::{insert_sorted, removal_idx, sorted_removals, undo_additions, undo_changes};

verus! {

// ---------------------------------------------------------------------------
// Everything but the removals.
// ---------------------------------------------------------------------------

/// The operations of `a` that are not key removals, in order.
pub open spec fn nonremoves(a: Seq<OpView>) -> Seq<OpView>
    decreases a.len(),
{
    if a.len() == 0 {
        a
    } else if a.last() is Remove {
        nonremoves(a.drop_last())
    } else {
        nonremoves(a.drop_last()).push(a.last())
    }
}

proof fn lemma_passes_nonremoves(e: Entries, c: Option<Seq<ConnectionView>>, a: Seq<OpView>)
    ensures
        undo_changes(e, a) == undo_changes(e, nonremoves(a)),
        undo_additions(e, a) == undo_additions(e, nonremoves(a)),
        undo_connections(c, a) == undo_connections(c, nonremoves(a)),
    decreases a.len(),
{
    if a.len() > 0 {
        lemma_passes_nonremoves(e, c, a.drop_last());
        let n = nonremoves(a);
        if !(a.last() is Remove) {
            assert(n.drop_last() =~= nonremoves(a.drop_last()));
            assert(n.last() == a.last());
        }
    }
}

proof fn lemma_nonremoves_token(x: Seq<OpView>, t: Seq<char>)
    ensures
        nonremoves(for_token(x, t)) == for_token(nonremoves(x), t),
    decreases x.len(),
{
    if x.len() > 0 {
        lemma_nonremoves_token(x.drop_last(), t);
        let f = for_token(x, t);
        let n = nonremoves(x);
        if x.last().at() == t {
            assert(f.drop_last() =~= for_token(x.drop_last(), t));
            assert(f.last() == x.last());
        }
        if !(x.last() is Remove) {
            assert(n.drop_last() =~= nonremoves(x.drop_last()));
            assert(n.last() == x.last());
        }
    }
}

proof fn lemma_nonremoves_replace(x: Seq<OpView>, p: int, y: OpView)
    requires
        0 <= p < x.len(),
        x[p] is Remove,
        y is Remove,
    ensures
        nonremoves(x.update(p, y)) == nonremoves(x),
    decreases x.len(),
{
    let u = x.update(p, y);
    if p < x.len() - 1 {
        lemma_nonremoves_replace(x.drop_last(), p, y);
        assert(u.drop_last() =~= x.drop_last().update(p, y));
        assert(u.last() == x.last());
    } else {
        assert(u.drop_last() =~= x.drop_last());
    }
}

// ---------------------------------------------------------------------------
// Occurrences.
// ---------------------------------------------------------------------------

/// How often `x` occurs in `s`.
pub open spec fn occ(s: Seq<OpView>, x: OpView) -> nat
    decreases s.len(),
{
    if s.len() == 0 {
        0
    } else {
        occ(s.drop_last(), x) + if s.last() == x {
            1nat
        } else {
            0nat
        }
    }
}

proof fn lemma_occ_push(s: Seq<OpView>, v: OpView, x: OpView)
    ensures
        occ(s.push(v), x) == occ(s, x) + if v == x {
            1nat
        } else {
            0nat
        },
{
    assert(s.push(v).drop_last() =~= s);
}

proof fn lemma_occ_insert_sorted(s: Seq<OpView>, v: OpView, x: OpView)
    ensures
        occ(insert_sorted(s, v), x) == occ(s, x) + if v == x {
            1nat
        } else {
            0nat
        },
    decreases s.len(),
{
    if s.len() == 0 {
        lemma_occ_push(s, v, x);
        assert(seq![v] =~= s.push(v));
    } else if removal_idx(s.last()) <= removal_idx(v) {
        lemma_occ_push(s, v, x);
    } else {
        lemma_occ_insert_sorted(s.drop_last(), v, x);
        lemma_occ_push(insert_sorted(s.drop_last(), v), s.last(), x);
        lemma_occ_push(s.drop_last(), s.last(), x);
        assert(s.drop_last().push(s.last()) =~= s);
    }
}

proof fn lemma_occ_sorted(a: Seq<OpView>, x: OpView)
    ensures
        occ(sorted_removals(a), x) == if x is Remove {
            occ(a, x)
        } else {
            0
        },
    decreases a.len(),
{
    if a.len() > 0 {
        lemma_occ_sorted(a.drop_last(), x);
        if a.last() is Remove {
            lemma_occ_insert_sorted(sorted_removals(a.drop_last()), a.last(), x);
        }
    }
}

proof fn lemma_occ_token(a: Seq<OpView>, t: Seq<char>, x: OpView)
    ensures
        occ(for_token(a, t), x) == if x.at() == t {
            occ(a, x)
        } else {
            0
        },
    decreases a.len(),
{
    if a.len() > 0 {
        lemma_occ_token(a.drop_last(), t, x);
        if a.last().at() == t {
            lemma_occ_push(for_token(a.drop_last(), t), a.last(), x);
        }
    }
}

proof fn lemma_occ_update(s: Seq<OpView>, p: int, v: OpView, x: OpView)
    requires
        0 <= p < s.len(),
    ensures
        occ(s.update(p, v), x) + (if s[p] == x {
            1int
        } else {
            0int
        }) == occ(s, x) + (if v == x {
            1int
        } else {
            0int
        }),
    decreases s.len(),
{
    let u = s.update(p, v);
    if p < s.len() - 1 {
        lemma_occ_update(s.drop_last(), p, v, x);
        assert(u.drop_last() =~= s.drop_last().update(p, v));
    } else {
        assert(u.drop_last() =~= s.drop_last());
    }
}

proof fn lemma_occ_positions(s: Seq<OpView>, x: OpView)
    ensures
        occ(s, x) >= 1 ==> exists|k: int| 0 <= k < s.len() && s[k] == x,
        occ(s, x) >= 2 ==> exists|k1: int, k2: int| 0 <= k1 < k2 < s.len() && s[k1] == x && s[k2] == x,
    decreases s.len(),
{
    if s.len() > 0 {
        let d = s.drop_last();
        lemma_occ_positions(d, x);
        if occ(d, x) >= 1 {
            let k = choose|k: int| 0 <= k < d.len() && d[k] == x;
            assert(s[k] == x);
            if s.last() == x {
                assert(s[s.len() - 1] == x);
            }
        }
        if occ(d, x) >= 2 {
            let (k1, k2) = choose|k1: int, k2: int| 0 <= k1 < k2 < d.len() && d[k1] == x && d[k2] == x;
            assert(s[k1] == x && s[k2] == x);
        }
        if s.last() == x {
            assert(s[s.len() - 1] == x);
        }
    }
}

proof fn lemma_occ_at(s: Seq<OpView>, k: int)
    requires
        0 <= k < s.len(),
    ensures
        occ(s, s[k]) >= 1,
    decreases s.len(),
{
    if k < s.len() - 1 {
        lemma_occ_at(s.drop_last(), k);
        assert(s.drop_last()[k] == s[k]);
    }
}

proof fn lemma_occ_two(s: Seq<OpView>, k1: int, k2: int)
    requires
        0 <= k1 < k2 < s.len(),
        s[k1] == s[k2],
    ensures
        occ(s, s[k1]) >= 2,
    decreases s.len(),
{
    let d = s.drop_last();
    if k2 < s.len() - 1 {
        lemma_occ_two(d, k1, k2);
        assert(d[k1] == s[k1]);
    } else {
        lemma_occ_at(d, k1);
        assert(d[k1] == s[k1]);
    }
}

// ---------------------------------------------------------------------------
// Sorted removals are determined by what they hold.
// ---------------------------------------------------------------------------

/// Positions strictly ascend.
pub open spec fn strictly_sorted(s: Seq<OpView>) -> bool {
    forall|i: int, j: int| 0 <= i < j < s.len() ==> removal_idx(s[i]) < removal_idx(s[j])
}

/// No two key removals of `ops` put a key back at the same position of the same
/// entity.
pub open spec fn removals_distinct(ops: Seq<OpView>) -> bool {
    forall|j1: int, j2: int|
        0 <= j1 < j2 < ops.len() && ops[j1] is Remove && ops[j2] is Remove ==> !(ops[j1].at() == ops[j2].at()
            && removal_idx(ops[j1]) == removal_idx(ops[j2]))
}

proof fn lemma_strict(s: Seq<OpView>, big: Seq<OpView>, t: Seq<char>)
    requires
        sorted_by_idx(s),
        removals_distinct(big),
        forall|x: OpView| #[trigger] occ(s, x) == if x is Remove && x.at() == t {
            occ(big, x)
        } else {
            0
        },
    ensures
        strictly_sorted(s),
{
    assert forall|i: int, j: int| 0 <= i < j < s.len() implies removal_idx(s[i]) < removal_idx(s[j]) by {
        if removal_idx(s[i]) == removal_idx(s[j]) {
            lemma_occ_at(s, i);
            lemma_occ_at(s, j);
            assert(occ(s, s[i]) >= 1 && occ(s, s[j]) >= 1);
            if s[i] == s[j] {
                lemma_occ_two(s, i, j);
                lemma_occ_positions(big, s[i]);
                let (k1, k2) = choose|k1: int, k2: int| 0 <= k1 < k2 < big.len() && big[k1] == s[i] && big[k2] == s[i];
                assert(big[k1] is Remove && big[k2] is Remove);
            } else {
                lemma_occ_positions(big, s[i]);
                lemma_occ_positions(big, s[j]);
                let k1 = choose|k: int| 0 <= k < big.len() && big[k] == s[i];
                let k2 = choose|k: int| 0 <= k < big.len() && big[k] == s[j];
                assert(k1 != k2);
                if k1 < k2 {
                    assert(big[k1] is Remove && big[k2] is Remove);
                } else {
                    assert(big[k2] is Remove && big[k1] is Remove);
                }
            }
        }
    }
}

proof fn lemma_unique(s1: Seq<OpView>, s2: Seq<OpView>)
    requires
        strictly_sorted(s1),
        strictly_sorted(s2),
        forall|x: OpView| #[trigger] occ(s1, x) == occ(s2, x),
    ensures
        s1 == s2,
    decreases s1.len(),
{
    if s1.len() == 0 {
        if s2.len() > 0 {
            lemma_occ_at(s2, 0);
            assert(occ(s1, s2[0]) == 0);
        }
        assert(s1 =~= s2);
    } else {
        lemma_occ_at(s1, 0);
        if s2.len() == 0 {
            assert(occ(s2, s1[0]) == 0);
        }
        let a = s1.last();
        let b = s2.last();
        lemma_occ_at(s1, s1.len() - 1);
        lemma_occ_at(s2, s2.len() - 1);
        assert(occ(s2, a) == occ(s1, a));
        assert(occ(s1, b) == occ(s2, b));
        lemma_occ_positions(s2, a);
        lemma_occ_positions(s1, b);
        let ka = choose|k: int| 0 <= k < s2.len() && s2[k] == a;
        let kb = choose|k: int| 0 <= k < s1.len() && s1[k] == b;
        if ka < s2.len() - 1 {
            assert(removal_idx(s2[ka]) < removal_idx(b));
        }
        if kb < s1.len() - 1 {
            assert(removal_idx(s1[kb]) < removal_idx(a));
        }
        assert(a == b);
        let d1 = s1.drop_last();
        let d2 = s2.drop_last();
        assert forall|x: OpView| #[trigger] occ(d1, x) == occ(d2, x) by {
            lemma_occ_push(d1, a, x);
            lemma_occ_push(d2, b, x);
            assert(d1.push(a) =~= s1);
            assert(d2.push(b) =~= s2);
            assert(occ(s1, x) == occ(s2, x));
        }
        lemma_unique(d1, d2);
        assert(s1 =~= d1.push(a));
        assert(s2 =~= d2.push(b));
    }
}

// ---------------------------------------------------------------------------
// The laws.
// ---------------------------------------------------------------------------

/// `b` holds the operations of `a` other than key removals in the same order,
/// and the key removals of `a`, each as often, in any order: the journal `a`
/// with its removals listed in another order.
pub open spec fn same_but_removal_order(a: Seq<OpView>, b: Seq<OpView>) -> bool {
    &&& nonremoves(a) == nonremoves(b)
    &&& forall|x: OpView| x is Remove ==> #[trigger] occ(a, x) == occ(b, x)
}

proof fn lemma_in_nonremoves(a: Seq<OpView>, x: OpView)
    requires
        !(x is Remove),
    ensures
        (exists|k: int| 0 <= k < a.len() && a[k] == x) <==> (exists|k: int| 0 <= k < nonremoves(a).len() && nonremoves(a)[k] == x),
    decreases a.len(),
{
    if a.len() > 0 {
        let d = a.drop_last();
        lemma_in_nonremoves(d, x);
        let n = nonremoves(a);
        let nd = nonremoves(d);
        if exists|k: int| 0 <= k < a.len() && a[k] == x {
            let k = choose|k: int| 0 <= k < a.len() && a[k] == x;
            if k < d.len() {
                assert(d[k] == x);
                let k2 = choose|k2: int| 0 <= k2 < nd.len() && nd[k2] == x;
                if !(a.last() is Remove) {
                    assert(n[k2] == nd[k2]);
                }
            } else {
                assert(n[n.len() - 1] == x);
            }
        }
        if exists|k: int| 0 <= k < n.len() && n[k] == x {
            let k = choose|k: int| 0 <= k < n.len() && n[k] == x;
            if a.last() is Remove || k < nd.len() {
                if !(a.last() is Remove) {
                    assert(nd[k] == x);
                }
                let k2 = choose|k2: int| 0 <= k2 < d.len() && d[k2] == x;
                assert(a[k2] == x);
            } else {
                assert(a[a.len() - 1] == x);
            }
        }
    }
}

/// Every operation of `b` is one of `a`.
proof fn lemma_ops_from(a: Seq<OpView>, b: Seq<OpView>, k: int) -> (j: int)
    requires
        same_but_removal_order(a, b),
        0 <= k < b.len(),
    ensures
        0 <= j < a.len(),
        a[j] == b[k],
{
    let x = b[k];
    if x is Remove {
        lemma_occ_at(b, k);
        assert(occ(a, x) == occ(b, x));
        lemma_occ_positions(a, x);
        choose|j: int| 0 <= j < a.len() && a[j] == x
    } else {
        lemma_in_nonremoves(b, x);
        lemma_in_nonremoves(a, x);
        choose|j: int| 0 <= j < a.len() && a[j] == x
    }
}

proof fn lemma_restored_nonremoves(list: Seq<EntityView>, a: Seq<OpView>, bucket: Bucket)
    ensures
        crate::rollback::restored_entities(list, a, bucket) == crate::rollback::restored_entities(list, nonremoves(a), bucket),
    decreases a.len(),
{
    if a.len() > 0 {
        lemma_restored_nonremoves(list, a.drop_last(), bucket);
        let n = nonremoves(a);
        if !(a.last() is Remove) {
            assert(n.drop_last() =~= nonremoves(a.drop_last()));
            assert(n.last() == a.last());
        }
    }
}

pub(crate) proof fn lemma_collisions_each(map: crate::model::MapView, ix: Seq<(Seq<char>, Bucket, int)>, a: Seq<OpView>)
    ensures
        crate::rollback::collisions_in(map, ix, a).len() == 0 <==> forall|k: int|
            0 <= k < a.len() ==> (#[trigger] crate::rollback::collision_of(map, ix, a[k])).len() == 0,
    decreases a.len(),
{
    if a.len() > 0 {
        let d = a.drop_last();
        lemma_collisions_each(map, ix, d);
        if forall|k: int| 0 <= k < a.len() ==> (#[trigger] crate::rollback::collision_of(map, ix, a[k])).len() == 0 {
            assert forall|k: int| 0 <= k < d.len() implies (#[trigger] crate::rollback::collision_of(map, ix, d[k])).len() == 0 by {
                assert(d[k] == a[k]);
            }
            assert(crate::rollback::collision_of(map, ix, a[a.len() - 1]).len() == 0);
        }
        if crate::rollback::collisions_in(map, ix, a).len() == 0 {
            assert forall|k: int| 0 <= k < a.len() implies (#[trigger] crate::rollback::collision_of(map, ix, a[k])).len() == 0 by {
                if k < d.len() {
                    assert(d[k] == a[k]);
                }
            }
        }
    }
}

/// A rollback does not depend on the order in which the journal lists its key
/// removals: each entity comes back the same, as long as no two removals put a
/// key back at the same position of the same entity.
pub proof fn law_rolled_in_any_order(
    list: Seq<EntityView>,
    ops: Seq<OpView>,
    ops2: Seq<OpView>,
    ix: Seq<(Seq<char>, Bucket, int)>,
    bucket: Bucket,
)
    requires
        same_but_removal_order(ops, ops2),
        removals_distinct(ops),
    ensures
        rolled_list(list, ops2, ix, bucket) == rolled_list(list, ops, ix, bucket),
{
    let r1 = rolled_list(list, ops, ix, bucket);
    let r2 = rolled_list(list, ops2, ix, bucket);
    assert forall|i: int| 0 <= i < list.len() implies r2[i] == r1[i] by {
        match crate::rollback::token_at(ix, bucket, i) {
            None => {},
            Some(t) => {
                let a1 = for_token(ops, t);
                let a2 = for_token(ops2, t);
                assert(ops_at(ops, ix, bucket, i) == a1 && ops_at(ops2, ix, bucket, i) == a2);
                lemma_nonremoves_token(ops, t);
                lemma_nonremoves_token(ops2, t);
                let e = list[i];
                lemma_passes_nonremoves(e.key_values, e.connections, a1);
                lemma_passes_nonremoves(e.key_values, e.connections, a2);
                lemma_passes_nonremoves(undo_changes(e.key_values, a1), e.connections, a1);
                lemma_passes_nonremoves(undo_changes(e.key_values, a1), e.connections, a2);
                let s1 = sorted_removals(a1);
                let s2 = sorted_removals(a2);
                assert forall|x: OpView| #[trigger] occ(s1, x) == if x is Remove && x.at() == t {
                    occ(ops, x)
                } else {
                    0
                } by {
                    lemma_occ_sorted(a1, x);
                    lemma_occ_token(ops, t, x);
                }
                assert forall|x: OpView| #[trigger] occ(s2, x) == if x is Remove && x.at() == t {
                    occ(ops, x)
                } else {
                    0
                } by {
                    lemma_occ_sorted(a2, x);
                    lemma_occ_token(ops2, t, x);
                }
                lemma_sorted_removals_sorted(a1);
                lemma_sorted_removals_sorted(a2);
                lemma_strict(s1, ops, t);
                lemma_strict(s2, ops, t);
                assert forall|x: OpView| #[trigger] occ(s1, x) == occ(s2, x) by {}
                lemma_unique(s1, s2);
            },
        }
    }
    assert(r2 =~= r1);
}

/// A whole rollback does not depend on the order in which the journal lists its
/// key removals, as long as no two removals put a key back at the same position
/// of the same entity: the journal with its removals in any other order finds
/// a collision exactly where this one does, and otherwise leaves both entity
/// lists exactly as this one does (removed keys go back in ascending order of
/// position whatever the order listed). Nothing else a rollback does reads the
/// journal's operations.
pub proof fn law_removals_in_any_order(
    map: crate::model::MapView,
    ops: Seq<OpView>,
    ops2: Seq<OpView>,
    ix: Seq<(Seq<char>, Bucket, int)>,
    mk: Seq<char>,
)
    requires
        same_but_removal_order(ops, ops2),
        removals_distinct(ops),
    ensures
        crate::rollback::collisions_in(map, ix, ops2).len() == 0 <==> crate::rollback::collisions_in(map, ix, ops).len() == 0,
        crate::rollback::rolled_back_list(map.entities, ops2, ix, Bucket::Entity, mk) == crate::rollback::rolled_back_list(
            map.entities,
            ops,
            ix,
            Bucket::Entity,
            mk,
        ),
        crate::rollback::rolled_back_list(map.hiddens, ops2, ix, Bucket::Hidden, mk) == crate::rollback::rolled_back_list(
            map.hiddens,
            ops,
            ix,
            Bucket::Hidden,
            mk,
        ),
{
    // the same operations, in the other direction too
    assert(same_but_removal_order(ops2, ops)) by {
        assert forall|x: OpView| x is Remove implies #[trigger] occ(ops2, x) == occ(ops, x) by {}
    }
    // collisions
    lemma_collisions_each(map, ix, ops);
    lemma_collisions_each(map, ix, ops2);
    if crate::rollback::collisions_in(map, ix, ops).len() == 0 {
        assert forall|k: int| 0 <= k < ops2.len() implies (#[trigger] crate::rollback::collision_of(map, ix, ops2[k])).len() == 0 by {
            let j = lemma_ops_from(ops, ops2, k);
            assert(crate::rollback::collision_of(map, ix, ops[j]).len() == 0);
        }
    }
    if crate::rollback::collisions_in(map, ix, ops2).len() == 0 {
        assert forall|k: int| 0 <= k < ops.len() implies (#[trigger] crate::rollback::collision_of(map, ix, ops[k])).len() == 0 by {
            let j = lemma_ops_from(ops2, ops, k);
            assert(crate::rollback::collision_of(map, ix, ops2[j]).len() == 0);
        }
    }
    // the lists
    lemma_list_in_any_order(map.entities, ops, ops2, ix, Bucket::Entity, mk);
    lemma_list_in_any_order(map.hiddens, ops, ops2, ix, Bucket::Hidden, mk);
}

proof fn lemma_list_in_any_order(
    list: Seq<EntityView>,
    ops: Seq<OpView>,
    ops2: Seq<OpView>,
    ix: Seq<(Seq<char>, Bucket, int)>,
    bucket: Bucket,
    mk: Seq<char>,
)
    requires
        same_but_removal_order(ops, ops2),
        same_but_removal_order(ops2, ops),
        removals_distinct(ops),
    ensures
        crate::rollback::rolled_back_list(list, ops2, ix, bucket, mk) == crate::rollback::rolled_back_list(list, ops, ix, bucket, mk),
{
    law_rolled_in_any_order(list, ops, ops2, ix, bucket);
    let r = rolled_list(list, ops, ix, bucket);
    let g1 = crate::rollback::created(ops, ix, bucket);
    let g2 = crate::rollback::created(ops2, ix, bucket);
    assert forall|k: int| 0 <= k < r.len() implies #[trigger] g1(k) == g2(k) by {
        if crate::rollback::created_at(ops, ix, bucket, k) {
            let j = choose|j: int|
                0 <= j < ops.len() && (#[trigger] ops[j]) is AddEntity && crate::rollback::located(ix, ops[j].at()) == Some((bucket, k));
            lemma_in_nonremoves(ops, ops[j]);
            lemma_in_nonremoves(ops2, ops[j]);
            let j2 = choose|j2: int| 0 <= j2 < ops2.len() && ops2[j2] == ops[j];
            assert(ops2[j2] is AddEntity);
        }
        if crate::rollback::created_at(ops2, ix, bucket, k) {
            let j = choose|j: int|
                0 <= j < ops2.len() && (#[trigger] ops2[j]) is AddEntity && crate::rollback::located(ix, ops2[j].at()) == Some((bucket, k));
            lemma_in_nonremoves(ops2, ops2[j]);
            lemma_in_nonremoves(ops, ops2[j]);
            let j2 = choose|j2: int| 0 <= j2 < ops.len() && ops[j2] == ops2[j];
            assert(ops[j2] is AddEntity);
        }
    }
    crate::rebuild::lemma_kept_agree(r, g1, g2, 0);
    let kept = crate::rollback::kept_from(r, g1, 0);
    lemma_restored_nonremoves(kept, ops, bucket);
    lemma_restored_nonremoves(kept, ops2, bucket);
}

} // verus!
