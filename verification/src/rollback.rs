//! Replaying a journal backwards.
//!
//! Only the spots the journal names are touched, so unrelated edits made in the
//! meantime (a retextured brush, a new entity) are left alone.

use vstd::prelude::*;

use crate::error::LedgerError;
use crate::kv::{entries_of, kv_get, kv_insert, kv_len, kv_shift_insert, kv_shift_remove, lookup, has_key, key_pos, Entries};
use crate::model::{conns_view, copy_conns, entity_views, Connection, ConnectionView, EntityModel, EntityView, MapModel, MapView};
use crate::ops::{as_written, ops_view, written, Bucket, Collision, Op, OpView, Token};
use crate::text::owned;
use crate::undo::{drop_key, insert_sorted, put, reinsert, removal_idx, rollback_keyvalues, sorted_removals, undo_additions, undo_changes, undo_removals};

verus! {

// ---------------------------------------------------------------------------
// Finding marked entities.
// ---------------------------------------------------------------------------

/// A marked entity: the token it carries and where it sits.
pub struct Marked {
    pub token: Token,
    pub bucket: Bucket,
    pub idx: usize,
}

impl View for Marked {
    type V = (Seq<char>, Bucket, int);

    open spec fn view(&self) -> (Seq<char>, Bucket, int) {
        (self.token@, self.bucket, self.idx as int)
    }
}

/// The views of an index.
pub open spec fn index_view(ix: Seq<Marked>) -> Seq<(Seq<char>, Bucket, int)> {
    ix.map_values(|m: Marked| m@)
}

/// The entities among the first `n` of `list` that carry `key`, with the value
/// they carry under it and their position.
pub open spec fn marks_in(list: Seq<EntityView>, key: Seq<char>, bucket: Bucket, n: int) -> Seq<
    (Seq<char>, Bucket, int),
>
    decreases n,
{
    if n <= 0 {
        Seq::empty()
    } else {
        let prev = marks_in(list, key, bucket, n - 1);
        match lookup(list[n - 1].key_values, key) {
            Some(t) => prev.push((t, bucket, n - 1)),
            None => prev,
        }
    }
}

/// Every entity of a map that carries `key`: the entity list first, then the
/// hidden one.
pub open spec fn marker_index(map: MapView, key: Seq<char>) -> Seq<(Seq<char>, Bucket, int)> {
    marks_in(map.entities, key, Bucket::Entity, map.entities.len() as int) + marks_in(
        map.hiddens,
        key,
        Bucket::Hidden,
        map.hiddens.len() as int,
    )
}

/// Entry `k` repeats the token of an earlier entry.
pub open spec fn repeats(ix: Seq<(Seq<char>, Bucket, int)>, k: int) -> bool {
    exists|j: int| 0 <= j < k && ix[j].0 == ix[k].0
}

/// No two entries share a token.
pub open spec fn tokens_distinct(ix: Seq<(Seq<char>, Bucket, int)>) -> bool {
    forall|i: int, j: int| 0 <= i < ix.len() && 0 <= j < ix.len() && i != j ==> ix[i].0 != ix[j].0
}

proof fn lemma_marks_prefix(list: Seq<EntityView>, key: Seq<char>, bucket: Bucket, i: int, n: int)
    requires
        0 <= i <= n,
    ensures
        marks_in(list, key, bucket, i) == marks_in(list, key, bucket, n).subrange(
            0,
            marks_in(list, key, bucket, i).len() as int,
        ),
    decreases n,
{
    if i < n {
        lemma_marks_prefix(list, key, bucket, i, n - 1);
        let a = marks_in(list, key, bucket, n - 1);
        let b = marks_in(list, key, bucket, n);
        let l = marks_in(list, key, bucket, i).len() as int;
        lemma_marks_len(list, key, bucket, i, n - 1);
        if b != a {
            assert(b.subrange(0, l) =~= a.subrange(0, l));
        }
    } else {
        assert(marks_in(list, key, bucket, i) =~= marks_in(list, key, bucket, n).subrange(
            0,
            marks_in(list, key, bucket, n).len() as int,
        ));
    }
}

proof fn lemma_marks_len(list: Seq<EntityView>, key: Seq<char>, bucket: Bucket, i: int, n: int)
    requires
        0 <= i <= n,
    ensures
        marks_in(list, key, bucket, i).len() <= marks_in(list, key, bucket, n).len(),
    decreases n,
{
    if i < n {
        lemma_marks_len(list, key, bucket, i, n - 1);
    }
}

pub(crate) proof fn lemma_marks_bounds(list: Seq<EntityView>, key: Seq<char>, bucket: Bucket, n: int)
    requires
        0 <= n <= list.len(),
    ensures
        forall|k: int|
            0 <= k < marks_in(list, key, bucket, n).len() ==> {
                let m = #[trigger] marks_in(list, key, bucket, n)[k];
                &&& m.1 == bucket
                &&& 0 <= m.2 < n
                &&& lookup(list[m.2].key_values, key) == Some(m.0)
            },
        forall|a: int, b: int|
            0 <= a < b < marks_in(list, key, bucket, n).len() ==> #[trigger] marks_in(
                list,
                key,
                bucket,
                n,
            )[a].2 < #[trigger] marks_in(list, key, bucket, n)[b].2,
    decreases n,
{
    if n > 0 {
        lemma_marks_bounds(list, key, bucket, n - 1);
    }
}

/// Collects the marked entities of one list into `ix`, refusing a token that is
/// already there.
fn collect_marks(
    list: &Vec<EntityModel>,
    key: &str,
    bucket: Bucket,
    ix: &mut Vec<Marked>,
) -> (r: Result<(), Token>)
    requires
        tokens_distinct(index_view(old(ix)@)),
    ensures
        r is Ok ==> index_view(final(ix)@) == index_view(old(ix)@) + marks_in(
            entity_views(list@),
            key@,
            bucket,
            list@.len() as int,
        ),
        r is Ok ==> tokens_distinct(index_view(final(ix)@)),
        r matches Err(t) ==> ({
            let full = index_view(old(ix)@) + marks_in(
                entity_views(list@),
                key@,
                bucket,
                list@.len() as int,
            );
            exists|k: int|
                0 <= k < full.len() && repeats(full, k) && t@ == full[k].0 && forall|k2: int|
                    0 <= k2 < k ==> !repeats(full, k2)
        }),
{
    let ghost start = index_view(ix@);
    let ghost views = entity_views(list@);
    let mut i: usize = 0;
    while i < list.len()
        invariant
            start == index_view(old(ix)@),
            views == entity_views(list@),
            tokens_distinct(start),
            i <= list@.len(),
            index_view(ix@) == start + marks_in(views, key@, bucket, i as int),
            tokens_distinct(index_view(ix@)),
        decreases list.len() - i,
    {
        assert(views[i as int] == list@[i as int]@);
        match kv_get(&list[i].key_values, key) {
            None => {},
            Some(token) => {
                let mut j: usize = 0;
                #[verifier::loop_isolation(false)]
                while j < ix.len()
                    invariant
                        j <= ix@.len(),
                        forall|q: int| 0 <= q < j ==> ix@[q].token@ != token@,
                    decreases ix.len() - j,
                {
                    if ix[j].token == *token {
                        proof {
                            let full = start + marks_in(
                                views,
                                key@,
                                bucket,
                                list@.len() as int,
                            );
                            let cur = index_view(ix@);
                            let k = cur.len() as int;
                            lemma_marks_prefix(views, key@, bucket, i + 1, list@.len() as int);
                            lemma_marks_len(views, key@, bucket, i + 1, list@.len() as int);
                            let nxt = start + marks_in(views, key@, bucket, i + 1);
                            assert(nxt =~= cur.push((token@, bucket, i as int)));
                            assert(full.subrange(0, k + 1) =~= nxt);
                            assert forall|q: int| 0 <= q <= k implies full[q] == nxt[q] by {
                                assert(full.subrange(0, k + 1)[q] == full[q]);
                            }
                            assert forall|q: int| 0 <= q < k implies nxt[q] == cur[q] by {}
                            assert(full[j as int] == cur[j as int]);
                            assert(repeats(full, k));
                            assert forall|k2: int| 0 <= k2 < k implies !repeats(full, k2) by {
                                if repeats(full, k2) {
                                    let j2 = choose|j2: int| 0 <= j2 < k2 && full[j2].0 == full[k2].0;
                                    assert(full[j2] == cur[j2] && full[k2] == cur[k2]);
                                }
                            }
                        }
                        return Err(token.clone());
                    }
                    j = j + 1;
                }
                let ghost cur = index_view(ix@);
                ix.push(Marked { token: token.clone(), bucket, idx: i });
                assert(index_view(ix@) =~= cur.push((token@, bucket, i as int)));
                assert forall|a: int| 0 <= a < cur.len() implies cur[a].0 != token@ by {
                    assert(cur[a] == ix@[a]@);
                }
            },
        }
        assert(index_view(ix@) =~= start + marks_in(views, key@, bucket, i + 1));
        i = i + 1;
    }
    Ok(())
}

/// Finds every marked entity of the map, refusing a marker that sits on more than
/// one entity: a copy-paste in the editor duplicates the marker along with
/// everything else, and a rollback must not guess which copy is the tool's.
pub fn index_markers(map: &MapModel, marker_key: &str) -> (r: Result<Vec<Marked>, LedgerError>)
    ensures
        r matches Ok(ix) ==> index_view(ix@) == marker_index(map@, marker_key@) && tokens_distinct(
            index_view(ix@),
        ),
        r is Ok <==> tokens_distinct(marker_index(map@, marker_key@)),
        r matches Err(e) ==> e matches LedgerError::DuplicateMarker(t) && exists|k: int|
            0 <= k < marker_index(map@, marker_key@).len() && repeats(
                marker_index(map@, marker_key@),
                k,
            ) && t@ == marker_index(map@, marker_key@)[k].0 && forall|k2: int|
                0 <= k2 < k ==> !repeats(marker_index(map@, marker_key@), k2),
{
    let ghost full = marker_index(map@, marker_key@);
    let mut ix: Vec<Marked> = Vec::new();
    assert(index_view(ix@) =~= Seq::<(Seq<char>, Bucket, int)>::empty());
    match collect_marks(&map.entities, marker_key, Bucket::Entity, &mut ix) {
        Ok(()) => {},
        Err(t) => {
            proof {
                let e = marks_in(entity_views(map.entities@), marker_key@, Bucket::Entity, map.entities@.len() as int);
                assert(Seq::<(Seq<char>, Bucket, int)>::empty() + e =~= e);
                let k = choose|k: int|
                    0 <= k < e.len() && repeats(e, k) && t@ == e[k].0 && forall|k2: int|
                        0 <= k2 < k ==> !repeats(e, k2);
                assert(full[k] == e[k]);
                assert(repeats(full, k)) by {
                    let j = choose|j: int| 0 <= j < k && e[j].0 == e[k].0;
                    assert(full[j] == e[j]);
                }
                assert forall|k2: int| 0 <= k2 < k implies !repeats(full, k2) by {
                    if repeats(full, k2) {
                        let j = choose|j: int| 0 <= j < k2 && full[j].0 == full[k2].0;
                        assert(full[j] == e[j] && full[k2] == e[k2]);
                        assert(repeats(e, k2));
                    }
                }
                assert(!tokens_distinct(full)) by {
                    let j = choose|j: int| 0 <= j < k && full[j].0 == full[k].0;
                }
            }
            return Err(LedgerError::DuplicateMarker(t));
        },
    }
    assert(index_view(ix@) =~= marks_in(entity_views(map.entities@), marker_key@, Bucket::Entity, map.entities@.len() as int));
    match collect_marks(&map.hiddens, marker_key, Bucket::Hidden, &mut ix) {
        Ok(()) => {},
        Err(t) => {
            proof {
                let k = choose|k: int|
                    0 <= k < full.len() && repeats(full, k) && t@ == full[k].0 && forall|k2: int|
                        0 <= k2 < k ==> !repeats(full, k2);
                assert(!tokens_distinct(full)) by {
                    let j = choose|j: int| 0 <= j < k && full[j].0 == full[k].0;
                }
            }
            return Err(LedgerError::DuplicateMarker(t));
        },
    }
    Ok(ix)
}

/// Where the entity with token `t` sits, according to the index.
pub open spec fn located(ix: Seq<(Seq<char>, Bucket, int)>, t: Seq<char>) -> Option<(Bucket, int)> {
    if exists|k: int| 0 <= k < ix.len() && ix[k].0 == t {
        let k = choose|k: int| 0 <= k < ix.len() && ix[k].0 == t;
        Some((ix[k].1, ix[k].2))
    } else {
        None
    }
}

/// Looks a token up in the index.
pub fn locate(ix: &Vec<Marked>, t: &str) -> (r: Option<(Bucket, usize)>)
    requires
        tokens_distinct(index_view(ix@)),
    ensures
        r is None <==> located(index_view(ix@), t@) is None,
        r matches Some(p) ==> located(index_view(ix@), t@) == Some((p.0, p.1 as int)),
{
    let ghost v = index_view(ix@);
    let mut k: usize = 0;
    while k < ix.len()
        invariant
            v == index_view(ix@),
            tokens_distinct(v),
            k <= ix@.len(),
            forall|q: int| 0 <= q < k ==> v[q].0 != t@,
        decreases ix.len() - k,
    {
        assert(v[k as int] == ix@[k as int]@);
        if crate::marker::str_eq(ix[k].token.as_str(), t) {
            proof {
                assert(v[k as int].0 == t@);
                let c = choose|c: int| 0 <= c < v.len() && v[c].0 == t@;
                assert(c == k as int);
            }
            return Some((ix[k].bucket, ix[k].idx));
        }
        k = k + 1;
    }
    None
}

// ---------------------------------------------------------------------------
// Checking before writing.
// ---------------------------------------------------------------------------

/// The entity at `(bucket, idx)`, if there is one.
pub open spec fn entity_at(map: MapView, bucket: Bucket, idx: int) -> Option<EntityView> {
    let list = match bucket {
        Bucket::Entity => map.entities,
        Bucket::Hidden => map.hiddens,
    };
    if 0 <= idx < list.len() {
        Some(list[idx])
    } else {
        None
    }
}

/// What a guard shows for a missing keyvalue or entity.
pub open spec fn absent() -> Seq<char> {
    seq!['<', 'a', 'b', 's', 'e', 'n', 't', '>']
}

/// The view of a [`Collision`].
pub struct CollisionView {
    pub token: Seq<char>,
    pub what: Seq<char>,
    pub expected: Seq<char>,
    pub found: Seq<char>,
}

impl View for Collision {
    type V = CollisionView;

    open spec fn view(&self) -> CollisionView {
        CollisionView {
            token: self.token@,
            what: self.what@,
            expected: self.expected@,
            found: self.found@,
        }
    }
}

/// The views of a list of collisions.
pub open spec fn collisions_view(s: Seq<Collision>) -> Seq<CollisionView> {
    s.map_values(|c: Collision| c@)
}

/// A connection list as a collision report names it.
pub open spec fn describe_conns(c: Option<Seq<ConnectionView>>) -> Seq<char> {
    match c {
        None => seq!['n', 'o', 'n', 'e'],
        Some(l) => crate::text::decimal(l.len()) + seq![
            ' ',
            'c',
            'o',
            'n',
            'n',
            'e',
            'c',
            't',
            'i',
            'o',
            'n',
            '(',
            's',
            ')',
        ],
    }
}

/// The collision, if any, that operation `op` finds in `map`: the spot it names
/// does not hold what the tool left there. An entity the tool deleted is not in
/// the map by definition, so its operation is not checked.
pub open spec fn collision_of(map: MapView, ix: Seq<(Seq<char>, Bucket, int)>, op: OpView) -> Seq<
    CollisionView,
> {
    let t = op.at();
    let miss = CollisionView {
        token: t,
        what: seq!['e', 'n', 't', 'i', 't', 'y'],
        expected: seq!['p', 'r', 'e', 's', 'e', 'n', 't'],
        found: absent(),
    };
    if op is RemoveEntity {
        Seq::empty()
    } else {
        match located(ix, t) {
            None => seq![miss],
            Some(p) => match entity_at(map, p.0, p.1) {
                None => seq![miss],
                Some(e) => match op {
                    OpView::Change { key, new, .. } => {
                        let found = match lookup(e.key_values, key) {
                            Some(v) => v,
                            None => absent(),
                        };
                        if found != new {
                            seq![CollisionView { token: t, what: key, expected: new, found }]
                        } else {
                            Seq::empty()
                        }
                    },
                    OpView::Add { key, new, .. } => {
                        let found = match lookup(e.key_values, key) {
                            Some(v) => v,
                            None => absent(),
                        };
                        if found != new {
                            seq![CollisionView { token: t, what: key, expected: new, found }]
                        } else {
                            Seq::empty()
                        }
                    },
                    OpView::Remove { key, .. } => match lookup(e.key_values, key) {
                        Some(v) => seq![
                            CollisionView { token: t, what: key, expected: absent(), found: v },
                        ],
                        None => Seq::empty(),
                    },
                    OpView::Connections { new, .. } => {
                        let found = written(e.connections);
                        if found != new {
                            seq![
                                CollisionView {
                                    token: t,
                                    what: seq![
                                        'c',
                                        'o',
                                        'n',
                                        'n',
                                        'e',
                                        'c',
                                        't',
                                        'i',
                                        'o',
                                        'n',
                                        's',
                                    ],
                                    expected: describe_conns(new),
                                    found: describe_conns(found),
                                },
                            ]
                        } else {
                            Seq::empty()
                        }
                    },
                    _ => Seq::empty(),
                },
            },
        }
    }
}

/// Every collision the journal's operations find, in journal order.
pub open spec fn collisions_in(map: MapView, ix: Seq<(Seq<char>, Bucket, int)>, ops: Seq<OpView>) -> Seq<
    CollisionView,
>
    decreases ops.len(),
{
    if ops.len() == 0 {
        Seq::empty()
    } else {
        collisions_in(map, ix, ops.drop_last()) + collision_of(map, ix, ops.last())
    }
}

fn list_of(map: &MapModel, bucket: Bucket) -> (r: &Vec<EntityModel>)
    ensures
        entity_views(r@) == match bucket {
            Bucket::Entity => map@.entities,
            Bucket::Hidden => map@.hiddens,
        },
{
    match bucket {
        Bucket::Entity => &map.entities,
        Bucket::Hidden => &map.hiddens,
    }
}

fn entity_ref<'a>(map: &'a MapModel, ix: &Vec<Marked>, token: &str) -> (r: Option<&'a EntityModel>)
    requires
        tokens_distinct(index_view(ix@)),
    ensures
        r is None <==> (match located(index_view(ix@), token@) {
            None => true,
            Some(p) => entity_at(map@, p.0, p.1) is None,
        }),
        r matches Some(e) ==> located(index_view(ix@), token@) matches Some(p) && entity_at(
            map@,
            p.0,
            p.1,
        ) == Some(e@),
{
    match locate(ix, token) {
        None => None,
        Some((bucket, idx)) => {
            let list = list_of(map, bucket);
            if idx < list.len() {
                assert(entity_views(list@)[idx as int] == list@[idx as int]@);
                Some(&list[idx])
            } else {
                None
            }
        },
    }
}

fn collision(token: &str, what: &str, expected: &str, found: &str) -> (r: Collision)
    ensures
        r@ == (CollisionView { token: token@, what: what@, expected: expected@, found: found@ }),
{
    Collision {
        token: owned(token),
        what: owned(what),
        expected: owned(expected),
        found: owned(found),
    }
}

fn describe(c: &Option<Vec<Connection>>) -> (r: String)
    ensures
        r@ == describe_conns(conns_view(*c)),
{
    match c {
        None => {
            let r = owned("none");
            proof {
                reveal_strlit("none");
            }
            assert(r@ =~= seq!['n', 'o', 'n', 'e']);
            r
        },
        Some(list) => {
            let mut r = crate::text::decimal_string(list.len() as u64);
            r.append(" connection(s)");
            proof {
                reveal_strlit(" connection(s)");
                assert(list@.map_values(|x: Connection| x@).len() == list@.len());
            }
            assert(r@ =~= describe_conns(conns_view(*c)));
            r
        },
    }
}

proof fn lemma_push_collisions(s: Seq<Collision>, c: Collision)
    ensures
        collisions_view(s.push(c)) == collisions_view(s).push(c@),
{
    assert(collisions_view(s.push(c)) =~= collisions_view(s).push(c@));
}

/// Every spot the journal names that no longer holds what the tool left there.
/// Checked in full before anything is written: a rollback that bailed out
/// halfway would leave the map in a state no journal describes.
pub fn check(map: &MapModel, ops: &Vec<Op>, ix: &Vec<Marked>) -> (r: Vec<Collision>)
    requires
        tokens_distinct(index_view(ix@)),
    ensures
        collisions_view(r@) == collisions_in(map@, index_view(ix@), ops_view(ops@)),
{
    let ghost ov = ops_view(ops@);
    let ghost ixv = index_view(ix@);
    let mut out: Vec<Collision> = Vec::new();
    let mut n: usize = 0;
    proof {
        reveal_strlit("<absent>");
        reveal_strlit("entity");
        reveal_strlit("present");
        reveal_strlit("connections");
    }
    while n < ops.len()
        invariant
            ov == ops_view(ops@),
            ixv == index_view(ix@),
            tokens_distinct(ixv),
            n <= ops@.len(),
            collisions_view(out@) == collisions_in(map@, ixv, ov.subrange(0, n as int)),
            "<absent>"@ == absent(),
            "entity"@ == seq!['e', 'n', 't', 'i', 't', 'y'],
            "present"@ == seq!['p', 'r', 'e', 's', 'e', 'n', 't'],
            "connections"@ == seq!['c', 'o', 'n', 'n', 'e', 'c', 't', 'i', 'o', 'n', 's'],
        decreases ops.len() - n,
    {
        let op = &ops[n];
        let ghost ovn = ov[n as int];
        assert(ovn == op@);
        assert(ov.subrange(0, n + 1).drop_last() =~= ov.subrange(0, n as int));
        let ghost before = out@;
        let ghost want = collision_of(map@, ixv, ovn);
        if let Op::RemoveEntity { .. } = op {
            assert(want =~= Seq::<CollisionView>::empty());
        } else {
            match entity_ref(map, ix, op.token()) {
                None => {
                    let c = collision(op.token(), "entity", "present", "<absent>");
                    proof {
                        lemma_push_collisions(out@, c);
                    }
                    out.push(c);
                    assert(want =~= seq![c@]);
                },
                Some(ent) => {
                    match op {
                        Op::Change { key, new, .. } | Op::Add { key, new, .. } => {
                            let found = match kv_get(&ent.key_values, key.as_str()) {
                                Some(v) => v.as_str(),
                                None => "<absent>",
                            };
                            if !crate::marker::str_eq(found, new.as_str()) {
                                let c = collision(op.token(), key.as_str(), new.as_str(), found);
                                proof {
                                    lemma_push_collisions(out@, c);
                                }
                                out.push(c);
                                assert(want =~= seq![c@]);
                            } else {
                                assert(want =~= Seq::<CollisionView>::empty());
                            }
                        },
                        Op::Remove { key, .. } => {
                            match kv_get(&ent.key_values, key.as_str()) {
                                Some(found) => {
                                    let c = collision(
                                        op.token(),
                                        key.as_str(),
                                        "<absent>",
                                        found.as_str(),
                                    );
                                    proof {
                                        lemma_push_collisions(out@, c);
                                    }
                                    out.push(c);
                                    assert(want =~= seq![c@]);
                                },
                                None => {
                                    assert(want =~= Seq::<CollisionView>::empty());
                                },
                            }
                        },
                        Op::Connections { new, .. } => {
                            let found = as_written(ent.connections.as_ref());
                            if !crate::model::same_conns(&found, new) {
                                let c = collision(
                                    op.token(),
                                    "connections",
                                    describe(new).as_str(),
                                    describe(&found).as_str(),
                                );
                                proof {
                                    lemma_push_collisions(out@, c);
                                }
                                out.push(c);
                                assert(want =~= seq![c@]);
                            } else {
                                assert(want =~= Seq::<CollisionView>::empty());
                            }
                        },
                        _ => {
                            assert(want =~= Seq::<CollisionView>::empty());
                        },
                    }
                },
            }
        }
        assert(collisions_view(out@) =~= collisions_view(before) + want);
        n = n + 1;
    }
    assert(ov.subrange(0, ops@.len() as int) =~= ov);
    out
}

// ---------------------------------------------------------------------------
// Replaying keyvalue and connection operations.
// ---------------------------------------------------------------------------

/// The operations about the entity with token `t`, in journal order.
pub open spec fn for_token(ops: Seq<OpView>, t: Seq<char>) -> Seq<OpView>
    decreases ops.len(),
{
    if ops.len() == 0 {
        ops
    } else if ops.last().at() == t {
        for_token(ops.drop_last(), t).push(ops.last())
    } else {
        for_token(ops.drop_last(), t)
    }
}

/// No two entries of the index name the same entity.
pub open spec fn positions_distinct(ix: Seq<(Seq<char>, Bucket, int)>) -> bool {
    forall|i: int, j: int|
        0 <= i < ix.len() && 0 <= j < ix.len() && i != j ==> (ix[i].1 != ix[j].1 || ix[i].2
            != ix[j].2)
}

/// The token the index gives the entity at `(bucket, idx)`.
pub open spec fn token_at(ix: Seq<(Seq<char>, Bucket, int)>, bucket: Bucket, idx: int) -> Option<
    Seq<char>,
> {
    if exists|k: int| 0 <= k < ix.len() && ix[k].1 == bucket && ix[k].2 == idx {
        Some(ix[choose|k: int| 0 <= k < ix.len() && ix[k].1 == bucket && ix[k].2 == idx].0)
    } else {
        None
    }
}

/// The journal operations about the entity at `(bucket, idx)`: none for an
/// entity without a marker.
pub open spec fn ops_at(ops: Seq<OpView>, ix: Seq<(Seq<char>, Bucket, int)>, bucket: Bucket, idx: int) -> Seq<
    OpView,
> {
    match token_at(ix, bucket, idx) {
        Some(t) => for_token(ops, t),
        None => Seq::empty(),
    }
}

proof fn lemma_ops_at_push(
    s: Seq<OpView>,
    op: OpView,
    ix: Seq<(Seq<char>, Bucket, int)>,
    bucket: Bucket,
    idx: int,
)
    requires
        tokens_distinct(ix),
        positions_distinct(ix),
    ensures
        ops_at(s.push(op), ix, bucket, idx) == if located(ix, op.at()) == Some((bucket, idx)) {
            ops_at(s, ix, bucket, idx).push(op)
        } else {
            ops_at(s, ix, bucket, idx)
        },
{
    assert(s.push(op).drop_last() =~= s);
    if exists|k: int| 0 <= k < ix.len() && ix[k].1 == bucket && ix[k].2 == idx {
        let k = choose|k: int| 0 <= k < ix.len() && ix[k].1 == bucket && ix[k].2 == idx;
        if ix[k].0 == op.at() {
            let c = choose|c: int| 0 <= c < ix.len() && ix[c].0 == op.at();
            assert(c == k);
        } else {
            if located(ix, op.at()) == Some((bucket, idx)) {
                let c = choose|c: int| 0 <= c < ix.len() && ix[c].0 == op.at();
                assert(c != k);
            }
        }
    } else {
        if located(ix, op.at()) == Some((bucket, idx)) {
            let c = choose|c: int| 0 <= c < ix.len() && ix[c].0 == op.at();
            assert(ix[c].1 == bucket && ix[c].2 == idx);
        }
    }
}

/// First pass on one entity: changed values and connections go back.
pub open spec fn step_changes(e: EntityView, op: OpView) -> EntityView {
    match op {
        OpView::Change { key, old, .. } => EntityView {
            key_values: put(e.key_values, key, old),
            connections: e.connections,
            visgroup_ids: e.visgroup_ids,
            body: e.body,
        },
        OpView::Connections { old, .. } => EntityView {
            key_values: e.key_values,
            connections: old,
            visgroup_ids: e.visgroup_ids,
            body: e.body,
        },
        _ => e,
    }
}

/// Second pass on one entity: added keys go.
pub open spec fn step_additions(e: EntityView, op: OpView) -> EntityView {
    match op {
        OpView::Add { key, .. } => EntityView {
            key_values: drop_key(e.key_values, key),
            connections: e.connections,
            visgroup_ids: e.visgroup_ids,
            body: e.body,
        },
        _ => e,
    }
}

/// Third pass on one entity: a removed key comes back.
pub open spec fn step_removals(e: EntityView, op: OpView) -> EntityView {
    match op {
        OpView::Remove { idx, key, old, .. } => EntityView {
            key_values: reinsert(e.key_values, idx, key, old),
            connections: e.connections,
            visgroup_ids: e.visgroup_ids,
            body: e.body,
        },
        _ => e,
    }
}

/// Which pass.
pub enum Pass {
    Changes,
    Additions,
    Removals,
}

/// One step of a pass.
pub open spec fn step(pass: Pass, e: EntityView, op: OpView) -> EntityView {
    match pass {
        Pass::Changes => step_changes(e, op),
        Pass::Additions => step_additions(e, op),
        Pass::Removals => step_removals(e, op),
    }
}

/// A pass over the operations, in order.
pub open spec fn fold(pass: Pass, e: EntityView, ops: Seq<OpView>) -> EntityView
    decreases ops.len(),
{
    if ops.len() == 0 {
        e
    } else {
        step(pass, fold(pass, e, ops.drop_last()), ops.last())
    }
}

/// The connections a rollback gives back: those of the last connection
/// operation, or the entity's own where there is none.
pub open spec fn undo_connections(c: Option<Seq<ConnectionView>>, ops: Seq<OpView>) -> Option<
    Seq<ConnectionView>,
>
    decreases ops.len(),
{
    if ops.len() == 0 {
        c
    } else {
        match ops.last() {
            OpView::Connections { old, .. } => old,
            _ => undo_connections(c, ops.drop_last()),
        }
    }
}

/// An entity after a rollback, given the journal operations about it.
pub open spec fn rolled_back(e: EntityView, ops: Seq<OpView>) -> EntityView {
    EntityView {
        key_values: rollback_keyvalues(e.key_values, ops),
        connections: undo_connections(e.connections, ops),
        visgroup_ids: e.visgroup_ids,
        body: e.body,
    }
}

/// A list of entities after one pass.
pub open spec fn pass_over(
    pass: Pass,
    list: Seq<EntityView>,
    ops: Seq<OpView>,
    ix: Seq<(Seq<char>, Bucket, int)>,
    bucket: Bucket,
) -> Seq<EntityView> {
    Seq::new(list.len(), |i: int| fold(pass, list[i], ops_at(ops, ix, bucket, i)))
}

proof fn lemma_pass_empty(
    pass: Pass,
    list: Seq<EntityView>,
    ix: Seq<(Seq<char>, Bucket, int)>,
    bucket: Bucket,
)
    ensures
        pass_over(pass, list, Seq::empty(), ix, bucket) == list,
{
    assert forall|i: int| 0 <= i < list.len() implies ops_at(Seq::empty(), ix, bucket, i)
        == Seq::<OpView>::empty() by {
        match token_at(ix, bucket, i) {
            Some(t) => {
                assert(for_token(Seq::<OpView>::empty(), t) == Seq::<OpView>::empty());
            },
            None => {},
        }
    }
    assert(pass_over(pass, list, Seq::empty(), ix, bucket) =~= list);
}

proof fn lemma_pass_push(
    pass: Pass,
    list: Seq<EntityView>,
    s: Seq<OpView>,
    op: OpView,
    ix: Seq<(Seq<char>, Bucket, int)>,
    bucket: Bucket,
)
    requires
        tokens_distinct(ix),
        positions_distinct(ix),
    ensures
        pass_over(pass, list, s.push(op), ix, bucket) == match located(ix, op.at()) {
            Some(p) => if p.0 == bucket && 0 <= p.1 < list.len() {
                pass_over(pass, list, s, ix, bucket).update(
                    p.1,
                    step(pass, pass_over(pass, list, s, ix, bucket)[p.1], op),
                )
            } else {
                pass_over(pass, list, s, ix, bucket)
            },
            None => pass_over(pass, list, s, ix, bucket),
        },
{
    let a = pass_over(pass, list, s.push(op), ix, bucket);
    let b = pass_over(pass, list, s, ix, bucket);
    assert forall|i: int| 0 <= i < list.len() implies a[i] == (if located(ix, op.at()) == Some(
        (bucket, i),
    ) {
        step(pass, b[i], op)
    } else {
        b[i]
    }) by {
        lemma_ops_at_push(s, op, ix, bucket, i);
        let o = ops_at(s, ix, bucket, i);
        if located(ix, op.at()) == Some((bucket, i)) {
            assert(o.push(op).drop_last() =~= o);
        }
    }
    match located(ix, op.at()) {
        Some(p) => {
            if p.0 == bucket && 0 <= p.1 < list.len() {
                assert(a =~= b.update(p.1, step(pass, b[p.1], op)));
            } else {
                assert(a =~= b);
            }
        },
        None => {
            assert(a =~= b);
        },
    }
}

/// Applies one operation's step of `pass` to the entity at `i`.
fn step_entity(pass: &Pass, list: &mut Vec<EntityModel>, i: usize, op: &Op)
    requires
        i < old(list)@.len(),
    ensures
        entity_views(final(list)@) == entity_views(old(list)@).update(
            i as int,
            step(*pass, old(list)@[i as int]@, op@),
        ),
{
    let ghost before = entity_views(list@);
    match (pass, op) {
        (Pass::Changes, Op::Change { key, old, .. }) => {
            kv_insert(&mut list[i].key_values, key.clone(), old.clone());
        },
        (Pass::Changes, Op::Connections { old, .. }) => {
            list[i].connections = copy_conns(old);
        },
        (Pass::Additions, Op::Add { key, .. }) => {
            kv_shift_remove(&mut list[i].key_values, key.as_str());
        },
        (Pass::Removals, Op::Remove { idx, key, old, .. }) => {
            let len = kv_len(&list[i].key_values);
            let present = crate::kv::kv_index_of(&list[i].key_values, key.as_str()).is_some();
            let at = if present {
                if *idx < len - 1 {
                    *idx
                } else {
                    len - 1
                }
            } else {
                if *idx < len {
                    *idx
                } else {
                    len
                }
            };
            kv_shift_insert(&mut list[i].key_values, at, key.clone(), old.clone());
        },
        _ => {},
    }
    assert(entity_views(list@) =~= before.update(i as int, step(*pass, before[i as int], op@)));
}

fn list_mut_step(pass: &Pass, map: &mut MapModel, bucket: Bucket, i: usize, op: &Op)
    requires
        i < (match bucket {
            Bucket::Entity => old(map)@.entities,
            Bucket::Hidden => old(map)@.hiddens,
        }).len(),
    ensures
        final(map)@.world == old(map)@.world,
        final(map)@.solid_visgroups == old(map)@.solid_visgroups,
        final(map)@.rest == old(map)@.rest,
        bucket == Bucket::Entity ==> final(map)@.entities == old(map)@.entities.update(
            i as int,
            step(*pass, old(map)@.entities[i as int], op@),
        ) && final(map)@.hiddens == old(map)@.hiddens,
        bucket == Bucket::Hidden ==> final(map)@.hiddens == old(map)@.hiddens.update(
            i as int,
            step(*pass, old(map)@.hiddens[i as int], op@),
        ) && final(map)@.entities == old(map)@.entities,
{
    match bucket {
        Bucket::Entity => {
            assert(entity_views(map.entities@)[i as int] == map.entities@[i as int]@);
            step_entity(pass, &mut map.entities, i, op);
        },
        Bucket::Hidden => {
            assert(entity_views(map.hiddens@)[i as int] == map.hiddens@[i as int]@);
            step_entity(pass, &mut map.hiddens, i, op);
        },
    }
}

/// Every entry of the index names an entity of the map.
pub open spec fn index_in_map(ix: Seq<(Seq<char>, Bucket, int)>, map: MapView) -> bool {
    forall|k: int| 0 <= k < ix.len() ==> entity_at(map, #[trigger] ix[k].1, ix[k].2) is Some
}

/// Runs one pass of the operations `order` picks out of `ops`, in that order,
/// over every marked entity.
fn run_pass(pass: &Pass, map: &mut MapModel, ops: &Vec<Op>, order: &Vec<usize>, ix: &Vec<Marked>)
    requires
        tokens_distinct(index_view(ix@)),
        positions_distinct(index_view(ix@)),
        index_in_map(index_view(ix@), old(map)@),
        forall|j: int| 0 <= j < order@.len() ==> #[trigger] order@[j] < ops@.len(),
    ensures
        final(map)@.world == old(map)@.world,
        final(map)@.solid_visgroups == old(map)@.solid_visgroups,
        final(map)@.rest == old(map)@.rest,
        final(map)@.entities == pass_over(
            *pass,
            old(map)@.entities,
            order@.map_values(|k: usize| ops@[k as int]@),
            index_view(ix@),
            Bucket::Entity,
        ),
        final(map)@.hiddens == pass_over(
            *pass,
            old(map)@.hiddens,
            order@.map_values(|k: usize| ops@[k as int]@),
            index_view(ix@),
            Bucket::Hidden,
        ),
{
    let ghost ixv = index_view(ix@);
    let ghost seqv = order@.map_values(|k: usize| ops@[k as int]@);
    let ghost start = map@;
    proof {
        lemma_pass_empty(*pass, start.entities, ixv, Bucket::Entity);
        lemma_pass_empty(*pass, start.hiddens, ixv, Bucket::Hidden);
        assert(seqv.subrange(0, 0) =~= Seq::<OpView>::empty());
    }
    let mut j: usize = 0;
    while j < order.len()
        invariant
            ixv == index_view(ix@),
            tokens_distinct(ixv),
            positions_distinct(ixv),
            index_in_map(ixv, start),
            seqv == order@.map_values(|k: usize| ops@[k as int]@),
            forall|q: int| 0 <= q < order@.len() ==> #[trigger] order@[q] < ops@.len(),
            j <= order@.len(),
            map@.world == start.world,
            map@.solid_visgroups == start.solid_visgroups,
            map@.rest == start.rest,
            map@.entities == pass_over(
                *pass,
                start.entities,
                seqv.subrange(0, j as int),
                ixv,
                Bucket::Entity,
            ),
            map@.hiddens == pass_over(
                *pass,
                start.hiddens,
                seqv.subrange(0, j as int),
                ixv,
                Bucket::Hidden,
            ),
        decreases order.len() - j,
    {
        let k = order[j];
        assert(order@[j as int] < ops@.len());
        let op = &ops[k];
        let ghost opv = op@;
        assert(seqv[j as int] == opv);
        assert(seqv.subrange(0, j + 1) =~= seqv.subrange(0, j as int).push(opv));
        proof {
            lemma_pass_push(*pass, start.entities, seqv.subrange(0, j as int), opv, ixv, Bucket::Entity);
            lemma_pass_push(*pass, start.hiddens, seqv.subrange(0, j as int), opv, ixv, Bucket::Hidden);
        }
        match locate(ix, op.token()) {
            None => {},
            Some((bucket, i)) => {
                proof {
                    let c = choose|c: int| 0 <= c < ixv.len() && ixv[c].0 == opv.at();
                    assert(entity_at(start, ixv[c].1, ixv[c].2) is Some);
                }
                list_mut_step(pass, map, bucket, i, op);
            },
        }
        j = j + 1;
    }
    assert(seqv.subrange(0, order@.len() as int) =~= seqv);
}

// ---------------------------------------------------------------------------
// Removals in order of position.
// ---------------------------------------------------------------------------

/// Sorted by the positions the removals carry.
pub open spec fn sorted_by_idx(s: Seq<OpView>) -> bool {
    forall|i: int, j: int| 0 <= i < j < s.len() ==> removal_idx(s[i]) <= removal_idx(s[j])
}

proof fn lemma_insert_after_all(s: Seq<OpView>, x: OpView)
    requires
        forall|i: int| 0 <= i < s.len() ==> removal_idx(#[trigger] s[i]) <= removal_idx(x),
    ensures
        insert_sorted(s, x) == s.push(x),
{
    if s.len() == 0 {
        assert(seq![x] =~= s.push(x));
    } else {
        assert(removal_idx(s[s.len() - 1]) <= removal_idx(x));
    }
}

proof fn lemma_insert_bounded(s: Seq<OpView>, x: OpView, m: nat)
    requires
        removal_idx(x) <= m,
        forall|i: int| 0 <= i < s.len() ==> removal_idx(#[trigger] s[i]) <= m,
    ensures
        forall|i: int|
            0 <= i < insert_sorted(s, x).len() ==> removal_idx(#[trigger] insert_sorted(s, x)[i])
                <= m,
    decreases s.len(),
{
    let res = insert_sorted(s, x);
    if s.len() == 0 {
        assert forall|i: int| 0 <= i < res.len() implies removal_idx(#[trigger] res[i]) <= m by {
            assert(res[i] == x);
        }
    } else if removal_idx(s.last()) > removal_idx(x) {
        let s1 = s.drop_last();
        assert forall|k: int| 0 <= k < s1.len() implies removal_idx(#[trigger] s1[k]) <= m by {
            assert(s1[k] == s[k]);
        }
        lemma_insert_bounded(s1, x, m);
        let r = insert_sorted(s1, x);
        assert(removal_idx(s[s.len() - 1]) <= m);
        assert forall|i: int| 0 <= i < res.len() implies removal_idx(#[trigger] res[i]) <= m by {
            if i < r.len() {
                assert(res[i] == r[i]);
            } else {
                assert(res[i] == s.last());
            }
        }
    } else {
        assert forall|i: int| 0 <= i < res.len() implies removal_idx(#[trigger] res[i]) <= m by {
            if i < s.len() {
                assert(res[i] == s[i]);
            } else {
                assert(res[i] == x);
            }
        }
    }
}

proof fn lemma_insert_sorted_props(s: Seq<OpView>, x: OpView)
    requires
        sorted_by_idx(s),
    ensures
        sorted_by_idx(insert_sorted(s, x)),
    decreases s.len(),
{
    if s.len() > 0 && removal_idx(s.last()) > removal_idx(x) {
        let s1 = s.drop_last();
        assert(sorted_by_idx(s1));
        lemma_insert_sorted_props(s1, x);
        assert forall|k: int| 0 <= k < s1.len() implies removal_idx(#[trigger] s1[k])
            <= removal_idx(s.last()) by {
            assert(s1[k] == s[k]);
        }
        lemma_insert_bounded(s1, x, removal_idx(s.last()));
    }
}

pub(crate) proof fn lemma_sorted_removals_sorted(ops: Seq<OpView>)
    ensures
        sorted_by_idx(sorted_removals(ops)),
    decreases ops.len(),
{
    if ops.len() > 0 {
        lemma_sorted_removals_sorted(ops.drop_last());
        if ops.last() is Remove {
            lemma_insert_sorted_props(sorted_removals(ops.drop_last()), ops.last());
        }
    }
}

proof fn lemma_for_token_bounded(s: Seq<OpView>, t: Seq<char>, m: nat)
    requires
        forall|i: int| 0 <= i < s.len() ==> removal_idx(#[trigger] s[i]) <= m,
    ensures
        forall|i: int|
            0 <= i < for_token(s, t).len() ==> removal_idx(#[trigger] for_token(s, t)[i]) <= m,
    decreases s.len(),
{
    if s.len() > 0 {
        let s1 = s.drop_last();
        assert forall|i: int| 0 <= i < s1.len() implies removal_idx(#[trigger] s1[i]) <= m by {
            assert(s1[i] == s[i]);
        }
        lemma_for_token_bounded(s1, t, m);
        assert(removal_idx(s[s.len() - 1]) <= m);
        let f1 = for_token(s1, t);
        let f = for_token(s, t);
        assert forall|i: int| 0 <= i < f.len() implies removal_idx(#[trigger] f[i]) <= m by {
            if i < f1.len() {
                assert(f[i] == f1[i]);
            } else {
                assert(f[i] == s.last());
            }
        }
    }
}

proof fn lemma_for_token_insert(s: Seq<OpView>, x: OpView, t: Seq<char>)
    requires
        sorted_by_idx(s),
    ensures
        for_token(insert_sorted(s, x), t) == if x.at() == t {
            insert_sorted(for_token(s, t), x)
        } else {
            for_token(s, t)
        },
    decreases s.len(),
{
    if s.len() == 0 {
        assert(seq![x].drop_last() =~= Seq::<OpView>::empty());
        assert(for_token(Seq::<OpView>::empty(), t) == Seq::<OpView>::empty());
    } else if removal_idx(s.last()) <= removal_idx(x) {
        assert(s.push(x).drop_last() =~= s);
        if x.at() == t {
            assert forall|i: int| 0 <= i < s.len() implies removal_idx(#[trigger] s[i])
                <= removal_idx(x) by {
                if i < s.len() - 1 {
                    assert(removal_idx(s[i]) <= removal_idx(s[s.len() - 1]));
                }
            }
            lemma_for_token_bounded(s, t, removal_idx(x));
            lemma_insert_after_all(for_token(s, t), x);
        }
    } else {
        let s1 = s.drop_last();
        let y = s.last();
        assert(sorted_by_idx(s1));
        lemma_for_token_insert(s1, x, t);
        let r = insert_sorted(s1, x);
        assert(r.push(y).drop_last() =~= r);
        assert(s1.push(y) =~= s);
        if x.at() == t && y.at() == t {
            let f = for_token(s1, t);
            assert(for_token(s, t) == f.push(y));
            assert(f.push(y).drop_last() =~= f);
            assert(insert_sorted(f.push(y), x) == insert_sorted(f, x).push(y));
        }
    }
}

pub(crate) proof fn lemma_sort_token(ops: Seq<OpView>, t: Seq<char>)
    ensures
        for_token(sorted_removals(ops), t) == sorted_removals(for_token(ops, t)),
    decreases ops.len(),
{
    if ops.len() == 0 {
        assert(for_token(Seq::<OpView>::empty(), t) == Seq::<OpView>::empty());
    } else {
        let o1 = ops.drop_last();
        let x = ops.last();
        lemma_sort_token(o1, t);
        lemma_sorted_removals_sorted(o1);
        let f1 = for_token(o1, t);
        if x.at() == t {
            assert(f1.push(x).drop_last() =~= f1);
        }
        if x is Remove {
            lemma_for_token_insert(sorted_removals(o1), x, t);
        }
    }
}

proof fn lemma_insert_sorted_at(s: Seq<OpView>, x: OpView, p: int)
    requires
        0 <= p <= s.len(),
        forall|q: int| p <= q < s.len() ==> removal_idx(#[trigger] s[q]) > removal_idx(x),
        p == 0 || removal_idx(s[p - 1]) <= removal_idx(x),
    ensures
        insert_sorted(s, x) == s.insert(p, x),
    decreases s.len(),
{
    if s.len() == p {
        if p == 0 {
            assert(seq![x] =~= s.insert(0, x));
        } else {
            assert(s.push(x) =~= s.insert(p, x));
        }
    } else {
        let s1 = s.drop_last();
        assert(removal_idx(s[s.len() - 1]) > removal_idx(x));
        assert forall|q: int| p <= q < s1.len() implies removal_idx(#[trigger] s1[q]) > removal_idx(
            x,
        ) by {
            assert(s1[q] == s[q]);
        }
        if p > 0 {
            assert(s1[p - 1] == s[p - 1]);
        }
        lemma_insert_sorted_at(s1, x, p);
        assert(s1.insert(p, x).push(s.last()) =~= s.insert(p, x));
    }
}

fn removal_pos(op: &Op) -> (r: usize)
    ensures
        r as nat == removal_idx(op@),
{
    match op {
        Op::Remove { idx, .. } => *idx,
        _ => 0,
    }
}

/// The positions in `ops` of its removals, sorted by the position each removal
/// carries, equal positions in journal order.
fn removal_order(ops: &Vec<Op>) -> (r: Vec<usize>)
    ensures
        forall|j: int| 0 <= j < r@.len() ==> #[trigger] r@[j] < ops@.len(),
        r@.map_values(|k: usize| ops@[k as int]@) == sorted_removals(ops_view(ops@)),
{
    let ghost ov = ops_view(ops@);
    let mut order: Vec<usize> = Vec::new();
    let mut n: usize = 0;
    assert(order@.map_values(|k: usize| ops@[k as int]@) =~= Seq::<OpView>::empty());
    while n < ops.len()
        invariant
            ov == ops_view(ops@),
            n <= ops@.len(),
            forall|j: int| 0 <= j < order@.len() ==> #[trigger] order@[j] < n,
            order@.map_values(|k: usize| ops@[k as int]@) == sorted_removals(
                ov.subrange(0, n as int),
            ),
        decreases ops.len() - n,
    {
        let ghost cur = order@.map_values(|k: usize| ops@[k as int]@);
        assert(ov.subrange(0, n + 1).drop_last() =~= ov.subrange(0, n as int));
        assert(ov.subrange(0, n + 1).last() == ops@[n as int]@);
        if let Op::Remove { idx, .. } = &ops[n] {
            proof {
                lemma_sorted_removals_sorted(ov.subrange(0, n as int));
            }
            let x = *idx;
            let mut p = order.len();
            while p > 0 && removal_pos(&ops[order[p - 1]]) > x
                invariant
                    p <= order@.len(),
                    forall|j: int| 0 <= j < order@.len() ==> #[trigger] order@[j] < n,
                    n < ops@.len(),
                    cur == order@.map_values(|k: usize| ops@[k as int]@),
                    forall|q: int| p <= q < cur.len() ==> removal_idx(#[trigger] cur[q]) > x,
                decreases p,
            {
                assert(order@[p - 1] < n);
                assert(cur[p - 1] == ops@[order@[p - 1] as int]@);
                p = p - 1;
            }
            proof {
                if p > 0 {
                    assert(order@[p - 1] < n);
                    assert(cur[p - 1] == ops@[order@[p - 1] as int]@);
                }
                lemma_insert_sorted_at(cur, ops@[n as int]@, p as int);
            }
            order.insert(p, n);
            assert(order@.map_values(|k: usize| ops@[k as int]@) =~= cur.insert(
                p as int,
                ops@[n as int]@,
            ));
        }
        n = n + 1;
    }
    assert(ov.subrange(0, ops@.len() as int) =~= ov);
    order
}

// ---------------------------------------------------------------------------
// All three passes.
// ---------------------------------------------------------------------------

proof fn lemma_fold_changes(e: EntityView, ops: Seq<OpView>)
    ensures
        fold(Pass::Changes, e, ops) == (EntityView {
            key_values: undo_changes(e.key_values, ops),
            connections: undo_connections(e.connections, ops),
            visgroup_ids: e.visgroup_ids,
            body: e.body,
        }),
    decreases ops.len(),
{
    if ops.len() > 0 {
        lemma_fold_changes(e, ops.drop_last());
    }
}

proof fn lemma_fold_additions(e: EntityView, ops: Seq<OpView>)
    ensures
        fold(Pass::Additions, e, ops) == (EntityView {
            key_values: undo_additions(e.key_values, ops),
            connections: e.connections,
            visgroup_ids: e.visgroup_ids,
            body: e.body,
        }),
    decreases ops.len(),
{
    if ops.len() > 0 {
        lemma_fold_additions(e, ops.drop_last());
    }
}

proof fn lemma_fold_removals(e: EntityView, ops: Seq<OpView>)
    ensures
        fold(Pass::Removals, e, ops) == (EntityView {
            key_values: undo_removals(e.key_values, ops),
            connections: e.connections,
            visgroup_ids: e.visgroup_ids,
            body: e.body,
        }),
    decreases ops.len(),
{
    if ops.len() > 0 {
        lemma_fold_removals(e, ops.drop_last());
    }
}

/// A list of entities, each rolled back with the operations about it.
pub open spec fn rolled_list(
    list: Seq<EntityView>,
    ops: Seq<OpView>,
    ix: Seq<(Seq<char>, Bucket, int)>,
    bucket: Bucket,
) -> Seq<EntityView> {
    Seq::new(list.len(), |i: int| rolled_back(list[i], ops_at(ops, ix, bucket, i)))
}

proof fn lemma_three_passes(
    list: Seq<EntityView>,
    ops: Seq<OpView>,
    ix: Seq<(Seq<char>, Bucket, int)>,
    bucket: Bucket,
)
    ensures
        pass_over(
            Pass::Removals,
            pass_over(Pass::Additions, pass_over(Pass::Changes, list, ops, ix, bucket), ops, ix, bucket),
            sorted_removals(ops),
            ix,
            bucket,
        ) == rolled_list(list, ops, ix, bucket),
{
    let p1 = pass_over(Pass::Changes, list, ops, ix, bucket);
    let p2 = pass_over(Pass::Additions, p1, ops, ix, bucket);
    let p3 = pass_over(Pass::Removals, p2, sorted_removals(ops), ix, bucket);
    assert forall|i: int| 0 <= i < list.len() implies p3[i] == rolled_back(
        list[i],
        ops_at(ops, ix, bucket, i),
    ) by {
        let a = ops_at(ops, ix, bucket, i);
        lemma_fold_changes(list[i], a);
        lemma_fold_additions(p1[i], a);
        match token_at(ix, bucket, i) {
            Some(t) => {
                lemma_sort_token(ops, t);
            },
            None => {},
        }
        assert(ops_at(sorted_removals(ops), ix, bucket, i) == sorted_removals(a));
        lemma_fold_removals(p2[i], sorted_removals(a));
    }
    assert(p3 =~= rolled_list(list, ops, ix, bucket));
}

/// Rolls back the keyvalues and connections of every marked entity.
///
/// Order inside an entity is not free. A removal carries the position the key
/// sat at in the original, and that position only means anything once the keys
/// the tool added are gone and the earlier keys are already back. So: values,
/// then additions, then removals in ascending order of position.
pub fn undo_edits(map: &mut MapModel, ops: &Vec<Op>, ix: &Vec<Marked>)
    requires
        tokens_distinct(index_view(ix@)),
        positions_distinct(index_view(ix@)),
        index_in_map(index_view(ix@), old(map)@),
    ensures
        final(map)@.world == old(map)@.world,
        final(map)@.solid_visgroups == old(map)@.solid_visgroups,
        final(map)@.rest == old(map)@.rest,
        final(map)@.entities == rolled_list(
            old(map)@.entities,
            ops_view(ops@),
            index_view(ix@),
            Bucket::Entity,
        ),
        final(map)@.hiddens == rolled_list(
            old(map)@.hiddens,
            ops_view(ops@),
            index_view(ix@),
            Bucket::Hidden,
        ),
{
    let ghost start = map@;
    let ghost ov = ops_view(ops@);
    let ghost ixv = index_view(ix@);
    let mut all: Vec<usize> = Vec::new();
    let mut n: usize = 0;
    while n < ops.len()
        invariant
            n <= ops@.len(),
            all@.len() == n,
            forall|j: int| 0 <= j < n ==> #[trigger] all@[j] == j,
        decreases ops.len() - n,
    {
        all.push(n);
        n = n + 1;
    }
    assert(all@.map_values(|k: usize| ops@[k as int]@) =~= ov);
    run_pass(&Pass::Changes, map, ops, &all, ix);
    let ghost m1 = map@;
    assert(index_in_map(ixv, m1)) by {
        assert forall|k: int| 0 <= k < ixv.len() implies entity_at(m1, #[trigger] ixv[k].1, ixv[k].2)
            is Some by {
            assert(entity_at(start, ixv[k].1, ixv[k].2) is Some);
        }
    }
    run_pass(&Pass::Additions, map, ops, &all, ix);
    let ghost m2 = map@;
    assert(index_in_map(ixv, m2)) by {
        assert forall|k: int| 0 <= k < ixv.len() implies entity_at(m2, #[trigger] ixv[k].1, ixv[k].2)
            is Some by {
            assert(entity_at(start, ixv[k].1, ixv[k].2) is Some);
        }
    }
    let order = removal_order(ops);
    run_pass(&Pass::Removals, map, ops, &order, ix);
    proof {
        lemma_three_passes(start.entities, ov, ixv, Bucket::Entity);
        lemma_three_passes(start.hiddens, ov, ixv, Bucket::Hidden);
    }
}

// ---------------------------------------------------------------------------
// Entities the tool created or deleted.
// ---------------------------------------------------------------------------

/// Some operation among `ops` says the entity at `(bucket, idx)` was created by
/// the tool.
pub open spec fn created_at(ops: Seq<OpView>, ix: Seq<(Seq<char>, Bucket, int)>, bucket: Bucket, idx: int) -> bool {
    exists|k: int|
        0 <= k < ops.len() && (#[trigger] ops[k]) is AddEntity && located(ix, ops[k].at()) == Some(
            (bucket, idx),
        )
}

/// The positions whose entities the tool created.
pub open spec fn created(ops: Seq<OpView>, ix: Seq<(Seq<char>, Bucket, int)>, bucket: Bucket) -> spec_fn(
    int,
) -> bool {
    |i: int| created_at(ops, ix, bucket, i)
}

/// The positions that `flags` flags.
pub open spec fn flagged(flags: Seq<bool>) -> spec_fn(int) -> bool {
    |i: int| 0 <= i < flags.len() && flags[i]
}

/// The entities from position `i` on whose position `gone` does not name.
pub open spec fn kept_from(s: Seq<EntityView>, gone: spec_fn(int) -> bool, i: int) -> Seq<EntityView>
    decreases s.len() - i,
{
    if i >= s.len() || i < 0 {
        Seq::empty()
    } else if gone(i) {
        kept_from(s, gone, i + 1)
    } else {
        seq![s[i]] + kept_from(s, gone, i + 1)
    }
}

/// Marks the positions of one list whose entities the tool created.
fn created_flags(ops: &Vec<Op>, ix: &Vec<Marked>, bucket: Bucket, len: usize) -> (r: Vec<bool>)
    requires
        tokens_distinct(index_view(ix@)),
    ensures
        r@.len() == len,
        forall|i: int|
            0 <= i < len ==> #[trigger] r@[i] == created_at(
                ops_view(ops@),
                index_view(ix@),
                bucket,
                i,
            ),
{
    let ghost ov = ops_view(ops@);
    let ghost ixv = index_view(ix@);
    let mut flags: Vec<bool> = Vec::new();
    let mut i: usize = 0;
    while i < len
        invariant
            i <= len,
            flags@.len() == i,
            forall|q: int| 0 <= q < i ==> !(#[trigger] flags@[q]),
        decreases len - i,
    {
        flags.push(false);
        i = i + 1;
    }
    let mut n: usize = 0;
    while n < ops.len()
        invariant
            ov == ops_view(ops@),
            ixv == index_view(ix@),
            tokens_distinct(ixv),
            n <= ops@.len(),
            flags@.len() == len,
            forall|q: int|
                0 <= q < len ==> #[trigger] flags@[q] == exists|k: int|
                    0 <= k < n && (#[trigger] ov[k]) is AddEntity && located(ixv, ov[k].at())
                        == Some((bucket, q)),
        decreases ops.len() - n,
    {
        assert(ov[n as int] == ops@[n as int]@);
        if let Op::AddEntity { .. } = &ops[n] {
            match locate(ix, ops[n].token()) {
                Some((b, i)) => {
                    if b == bucket && i < len {
                        flags.set(i, true);
                    }
                },
                None => {},
            }
        }
        assert forall|q: int| 0 <= q < len implies #[trigger] flags@[q] == exists|k: int|
            0 <= k < n + 1 && (#[trigger] ov[k]) is AddEntity && located(ixv, ov[k].at()) == Some(
                (bucket, q),
            ) by {
            if ov[n as int] is AddEntity && located(ixv, ov[n as int].at()) == Some((bucket, q)) {
                assert(flags@[q]);
            }
        }
        n = n + 1;
    }
    flags
}

/// Drops the entities whose positions are flagged, keeping the others in order.
fn drop_flagged(list: &mut Vec<EntityModel>, flags: &Vec<bool>)
    requires
        flags@.len() == old(list)@.len(),
    ensures
        entity_views(final(list)@) == kept_from(entity_views(old(list)@), flagged(flags@), 0),
{
    let ghost s = entity_views(list@);
    let ghost gone = flagged(flags@);
    let mut i: usize = list.len();
    assert(s.subrange(0, i as int) + kept_from(s, gone, i as int) =~= s);
    while i > 0
        invariant
            flags@.len() == s.len(),
            i <= s.len(),
            gone == flagged(flags@),
            entity_views(list@) == s.subrange(0, i as int) + kept_from(s, gone, i as int),
        decreases i,
    {
        let ghost before = entity_views(list@);
        assert(before.len() == list@.len());
        assert(before[i - 1] == s[i - 1]);
        if flags[i - 1] {
            assert(gone(i - 1));
            assert(kept_from(s, gone, i - 1) == kept_from(s, gone, i as int));
            list.remove(i - 1);
            assert(entity_views(list@) =~= before.remove(i - 1));
            assert(entity_views(list@) =~= s.subrange(0, i - 1) + kept_from(s, gone, i - 1));
        } else {
            assert(!gone(i - 1));
            assert(kept_from(s, gone, i - 1) == seq![s[i - 1]] + kept_from(s, gone, i as int));
            assert(entity_views(list@) =~= s.subrange(0, i - 1) + kept_from(s, gone, i - 1));
        }
        i = i - 1;
    }
    assert(s.subrange(0, 0) + kept_from(s, gone, 0) =~= kept_from(s, gone, 0));
}

/// A list after the entities the tool deleted from it came back: each at the
/// position it had, or at the end where the list has become shorter, in journal
/// order.
pub open spec fn restored_entities(list: Seq<EntityView>, ops: Seq<OpView>, bucket: Bucket) -> Seq<
    EntityView,
>
    decreases ops.len(),
{
    if ops.len() == 0 {
        list
    } else {
        let prev = restored_entities(list, ops.drop_last(), bucket);
        match ops.last() {
            OpView::RemoveEntity { bucket: b, idx, entity, .. } => if b == bucket {
                let at = if idx < prev.len() {
                    idx as int
                } else {
                    prev.len() as int
                };
                prev.insert(at, entity)
            } else {
                prev
            },
            _ => prev,
        }
    }
}

/// Puts back the entities the tool deleted.
fn restore_entities(list: &mut Vec<EntityModel>, ops: &Vec<Op>, bucket: Bucket)
    ensures
        entity_views(final(list)@) == restored_entities(
            entity_views(old(list)@),
            ops_view(ops@),
            bucket,
        ),
{
    let ghost ov = ops_view(ops@);
    let ghost s = entity_views(list@);
    let mut n: usize = 0;
    while n < ops.len()
        invariant
            ov == ops_view(ops@),
            n <= ops@.len(),
            entity_views(list@) == restored_entities(s, ov.subrange(0, n as int), bucket),
        decreases ops.len() - n,
    {
        assert(ov.subrange(0, n + 1).drop_last() =~= ov.subrange(0, n as int));
        assert(ov.subrange(0, n + 1).last() == ops@[n as int]@);
        if let Op::RemoveEntity { bucket: b, idx, entity, .. } = &ops[n] {
            if *b == bucket {
                let len = list.len();
                let at = if *idx < len {
                    *idx
                } else {
                    len
                };
                let ghost before = entity_views(list@);
                let e = entity.duplicate();
                let ghost ev = e@;
                list.insert(at, e);
                assert(entity_views(list@) =~= before.insert(at as int, ev));
            }
        }
        n = n + 1;
    }
    assert(ov.subrange(0, ops@.len() as int) =~= ov);
}

/// A list with `key` gone from every entity.
pub open spec fn stripped(list: Seq<EntityView>, key: Seq<char>) -> Seq<EntityView> {
    Seq::new(
        list.len(),
        |i: int|
            EntityView {
                key_values: drop_key(list[i].key_values, key),
                connections: list[i].connections,
                visgroup_ids: list[i].visgroup_ids,
                body: list[i].body,
            },
    )
}

/// Removes `key` from every entity of the list.
fn strip_markers(list: &mut Vec<EntityModel>, key: &str)
    ensures
        entity_views(final(list)@) == stripped(entity_views(old(list)@), key@),
{
    let ghost s = entity_views(list@);
    let mut i: usize = 0;
    while i < list.len()
        invariant
            s.len() == list@.len(),
            i <= s.len(),
            forall|q: int|
                0 <= q < s.len() ==> #[trigger] entity_views(list@)[q] == if q < i {
                    stripped(s, key@)[q]
                } else {
                    s[q]
                },
        decreases list.len() - i,
    {
        let ghost before = entity_views(list@);
        assert(before[i as int] == list@[i as int]@);
        kv_shift_remove(&mut list[i].key_values, key);
        assert forall|q: int| 0 <= q < s.len() implies #[trigger] entity_views(list@)[q] == if q < i
            + 1 {
            stripped(s, key@)[q]
        } else {
            s[q]
        } by {
            assert(entity_views(list@)[q] == list@[q]@);
            if q != i {
                assert(before[q] == entity_views(list@)[q]);
            }
        }
        i = i + 1;
    }
    assert(entity_views(list@) =~= stripped(s, key@));
}

// ---------------------------------------------------------------------------
// Visgroups.
// ---------------------------------------------------------------------------

/// Someone is filed under visgroup `id`: an entity of either list, or a brush.
pub open spec fn occupied(map: MapView, id: i32) -> bool {
    ||| exists|i: int| 0 <= i < map.entities.len() && map.entities[i].visgroup_ids.contains(id)
    ||| exists|i: int| 0 <= i < map.hiddens.len() && map.hiddens[i].visgroup_ids.contains(id)
    ||| exists|i: int| 0 <= i < map.solid_visgroups.len() && map.solid_visgroups[i].contains(id)
}

pub(crate) fn contains_id(v: &Vec<i32>, id: i32) -> (r: bool)
    ensures
        r == v@.contains(id),
{
    let mut i: usize = 0;
    while i < v.len()
        invariant
            i <= v@.len(),
            forall|q: int| 0 <= q < i ==> v@[q] != id,
        decreases v.len() - i,
    {
        if v[i] == id {
            return true;
        }
        i = i + 1;
    }
    false
}

fn list_has_id(list: &Vec<EntityModel>, id: i32) -> (r: bool)
    ensures
        r == exists|i: int|
            0 <= i < entity_views(list@).len() && entity_views(list@)[i].visgroup_ids.contains(id),
{
    let mut i: usize = 0;
    while i < list.len()
        invariant
            i <= list@.len(),
            forall|q: int| 0 <= q < i ==> !entity_views(list@)[q].visgroup_ids.contains(id),
        decreases list.len() - i,
    {
        assert(entity_views(list@)[i as int] == list@[i as int]@);
        if contains_id(&list[i].visgroup_ids, id) {
            return true;
        }
        i = i + 1;
    }
    false
}

/// Whether anyone is filed under visgroup `id`.
pub fn is_occupied(map: &MapModel, id: i32) -> (r: bool)
    ensures
        r == occupied(map@, id),
{
    if list_has_id(&map.entities, id) || list_has_id(&map.hiddens, id) {
        return true;
    }
    let mut i: usize = 0;
    while i < map.solid_visgroups.len()
        invariant
            i <= map.solid_visgroups@.len(),
            forall|q: int| 0 <= q < i ==> !map@.solid_visgroups[q].contains(id),
        decreases map.solid_visgroups.len() - i,
    {
        assert(map@.solid_visgroups[i as int] == map.solid_visgroups@[i as int]@);
        if contains_id(&map.solid_visgroups[i], id) {
            return true;
        }
        i = i + 1;
    }
    false
}

/// The map after `VisGroups::remove_by_id(id)`: the first group with id `id`,
/// looked for in each list before the lists under it, taken out together with
/// the groups under it.
pub uninterp spec fn visgroup_removed(rest: source_vmf::VmfFile, id: i32) -> source_vmf::VmfFile;

/// `VisGroups::remove_by_id` on the map's visgroups. The map afterwards is the
/// one `visgroup_removed` names, which depends on the map and the id alone;
/// what its visgroup list holds is not modelled.
#[verifier::external_body]
fn remove_visgroup(rest: &mut source_vmf::VmfFile, id: i32)
    ensures
        *final(rest) == visgroup_removed(*old(rest), id),
{
    rest.visgroups.remove_by_id(id);
}

/// The map's visgroups after the groups `v` names are taken back, in order,
/// each unless somebody in `filed` is filed under it.
pub open spec fn visgroups_undone(rest: source_vmf::VmfFile, filed: MapView, v: Seq<crate::ops::VisgroupOp>) -> source_vmf::VmfFile
    decreases v.len(),
{
    if v.len() == 0 {
        rest
    } else {
        let prev = visgroups_undone(rest, filed, v.drop_last());
        match v.last() {
            crate::ops::VisgroupOp::Add { id, .. } => if occupied(filed, id) {
                prev
            } else {
                visgroup_removed(prev, id)
            },
        }
    }
}

pub(crate) proof fn lemma_undone_same_filed(rest: source_vmf::VmfFile, a: MapView, b: MapView, v: Seq<crate::ops::VisgroupOp>)
    requires
        a.entities == b.entities,
        a.hiddens == b.hiddens,
        a.solid_visgroups == b.solid_visgroups,
    ensures
        visgroups_undone(rest, a, v) == visgroups_undone(rest, b, v),
    decreases v.len(),
{
    if v.len() > 0 {
        lemma_undone_same_filed(rest, a, b, v.drop_last());
    }
}

/// Takes back the visgroups the tool made, except one somebody else moved into:
/// the group was the tool's to create, not to take away with someone else still
/// in it. Runs after the tool's own entities are gone, so their membership does
/// not count.
pub fn undo_visgroups(map: &mut MapModel, visgroups: &Vec<crate::ops::VisgroupOp>)
    ensures
        final(map)@.world == old(map)@.world,
        final(map)@.entities == old(map)@.entities,
        final(map)@.hiddens == old(map)@.hiddens,
        final(map)@.solid_visgroups == old(map)@.solid_visgroups,
        final(map)@.rest == visgroups_undone(old(map)@.rest, old(map)@, visgroups@),
{
    let mut n: usize = 0;
    while n < visgroups.len()
        invariant
            n <= visgroups@.len(),
            map@.world == old(map)@.world,
            map@.entities == old(map)@.entities,
            map@.hiddens == old(map)@.hiddens,
            map@.solid_visgroups == old(map)@.solid_visgroups,
            map@.rest == visgroups_undone(old(map)@.rest, old(map)@, visgroups@.subrange(0, n as int)),
        decreases visgroups.len() - n,
    {
        assert(visgroups@.subrange(0, n + 1).drop_last() =~= visgroups@.subrange(0, n as int));
        assert(visgroups@.subrange(0, n + 1).last() == visgroups@[n as int]);
        match &visgroups[n] {
            crate::ops::VisgroupOp::Add { id, .. } => {
                if !is_occupied(map, *id) {
                    remove_visgroup(&mut map.rest, *id);
                }
            },
        }
        n = n + 1;
    }
    assert(visgroups@.subrange(0, visgroups@.len() as int) =~= visgroups@);
}

// ---------------------------------------------------------------------------
// The rollback.
// ---------------------------------------------------------------------------

pub(crate) proof fn lemma_index_wf(map: MapView, key: Seq<char>)
    ensures
        positions_distinct(marker_index(map, key)),
        index_in_map(marker_index(map, key), map),
{
    let e = marks_in(map.entities, key, Bucket::Entity, map.entities.len() as int);
    let h = marks_in(map.hiddens, key, Bucket::Hidden, map.hiddens.len() as int);
    lemma_marks_bounds(map.entities, key, Bucket::Entity, map.entities.len() as int);
    lemma_marks_bounds(map.hiddens, key, Bucket::Hidden, map.hiddens.len() as int);
    let ix = marker_index(map, key);
    assert forall|i: int| 0 <= i < ix.len() implies (if i < e.len() {
        ix[i] == e[i]
    } else {
        ix[i] == h[i - e.len()]
    }) by {}
    assert forall|i: int, j: int|
        0 <= i < ix.len() && 0 <= j < ix.len() && i != j implies (ix[i].1 != ix[j].1 || ix[i].2
        != ix[j].2) by {
        if i < e.len() && j < e.len() {
            if i < j {
                assert(e[i].2 < e[j].2);
            } else {
                assert(e[j].2 < e[i].2);
            }
        } else if i >= e.len() && j >= e.len() {
            if i < j {
                assert(h[i - e.len()].2 < h[j - e.len()].2);
            } else {
                assert(h[j - e.len()].2 < h[i - e.len()].2);
            }
        }
    }
    assert forall|k: int| 0 <= k < ix.len() implies entity_at(map, #[trigger] ix[k].1, ix[k].2) is Some by {
        if k < e.len() {
            assert(e[k].1 == Bucket::Entity);
        } else {
            assert(h[k - e.len()].1 == Bucket::Hidden);
        }
    }
}

proof fn lemma_kept_ext(s: Seq<EntityView>, p: spec_fn(int) -> bool, q: spec_fn(int) -> bool, i: int)
    requires
        forall|k: int| 0 <= k < s.len() ==> #[trigger] p(k) == q(k),
    ensures
        kept_from(s, p, i) == kept_from(s, q, i),
    decreases s.len() - i,
{
    if 0 <= i < s.len() {
        lemma_kept_ext(s, p, q, i + 1);
    }
}

/// One entity list after a rollback: keyvalues and connections rolled back, the
/// tool's own entities gone, the entities it deleted back in place, the marker
/// key gone from every entity.
pub open spec fn rolled_back_list(
    list: Seq<EntityView>,
    ops: Seq<OpView>,
    ix: Seq<(Seq<char>, Bucket, int)>,
    bucket: Bucket,
    marker_key: Seq<char>,
) -> Seq<EntityView> {
    stripped(
        restored_entities(
            kept_from(rolled_list(list, ops, ix, bucket), created(ops, ix, bucket), 0),
            ops,
            bucket,
        ),
        marker_key,
    )
}

/// True when the tool has compiled the map before: the registry holds its
/// record.
pub fn is_marked(map: &MapModel, opts: &crate::LedgerOptions) -> (r: bool)
    ensures
        r == (crate::marker::first_named(
            crate::marker::registry(map@.world, opts.world_key@),
            opts.name@,
        ) is Some),
{
    let marks = crate::marker::read(&map.world_key_values, opts.world_key.as_str());
    crate::marker::find(&marks, opts.name.as_str()).is_some()
}

/// The record the tool left in the map, as the registry writes it: what a
/// rewind reports when the journal it needs is gone. `None` where the map
/// carries no record of the tool, so that there is nothing to rewind.
pub fn mark_of(map: &MapModel, opts: &crate::LedgerOptions) -> (r: Option<String>)
    ensures
        ({
            let marks = crate::marker::registry(map@.world, opts.world_key@);
            match crate::marker::first_named(marks, opts.name@) {
                None => r is None,
                Some(i) => r matches Some(t) && t@ == crate::marker::record_text(marks[i]),
            }
        }),
{
    let marks = crate::marker::read(&map.world_key_values, opts.world_key.as_str());
    match crate::marker::find(&marks, opts.name.as_str()) {
        Some(rec) => Some(rec.to_text()),
        None => None,
    }
}

/// Undoes the tool's edits in place. `in_journal` is the journal's fingerprint
/// (see [`crate::sidecar::Journal::fingerprint_with`]).
///
/// Refused, with the map left as it was: when the registry holds no record of
/// the journal's tool; when that record's fingerprint is not the journal's; when
/// one marker sits on two entities; and, unless forced, when the map was edited
/// where the tool had written. Otherwise every entity list is rolled back (see
/// [`rolled_back_list`]), the visgroups the tool made and nobody else uses go,
/// and the tool's record leaves the registry.
pub fn restore(
    map: &mut MapModel,
    journal: &crate::sidecar::Journal,
    opts: &crate::LedgerOptions,
    restore_opts: &crate::RestoreOptions,
    in_journal: &str,
) -> (r: Result<(), LedgerError>)
    ensures
        ({
            let marks = crate::marker::registry(old(map)@.world, opts.world_key@);
            let found = crate::marker::first_named(marks, journal.name@);
            let ix = marker_index(old(map)@, journal.marker_key@);
            let ov = ops_view(journal.ops@);
            let cs = collisions_in(old(map)@, ix, ov);
            &&& match found {
                None => r matches Err(LedgerError::NotMarked(n)) && n@ == journal.name@,
                Some(i) => if marks[i].fingerprint != in_journal@ {
                    r matches Err(LedgerError::Mismatched { name, in_map, in_journal: j })
                        && name@ == journal.name@ && in_map@ == marks[i].fingerprint && j@
                        == in_journal@
                } else if !tokens_distinct(ix) {
                    r matches Err(LedgerError::DuplicateMarker(t)) && exists|k: int|
                        0 <= k < ix.len() && repeats(ix, k) && t@ == ix[k].0 && forall|k2: int|
                            0 <= k2 < k ==> !repeats(ix, k2)
                } else if cs.len() > 0 && !restore_opts.force {
                    r matches Err(LedgerError::Collisions(c)) && collisions_view(c@) == cs
                } else {
                    r is Ok
                },
            }
            &&& r is Err ==> final(map)@ == old(map)@
            &&& r is Ok ==> {
                &&& final(map)@.entities == rolled_back_list(
                    old(map)@.entities,
                    ov,
                    ix,
                    Bucket::Entity,
                    journal.marker_key@,
                )
                &&& final(map)@.hiddens == rolled_back_list(
                    old(map)@.hiddens,
                    ov,
                    ix,
                    Bucket::Hidden,
                    journal.marker_key@,
                )
                &&& final(map)@.world == crate::marker::with_registry(
                    old(map)@.world,
                    opts.world_key@,
                    crate::marker::without_named(marks, journal.name@),
                )
                &&& final(map)@.solid_visgroups == old(map)@.solid_visgroups
                &&& final(map)@.rest == visgroups_undone(old(map)@.rest, final(map)@, journal.visgroups@)
            }
        }),
{
    let ghost start = map@;
    let mut marks = crate::marker::read(&map.world_key_values, opts.world_key.as_str());
    let in_map = match crate::marker::find(&marks, journal.name.as_str()) {
        None => {
            return Err(LedgerError::NotMarked(journal.name.clone()));
        },
        Some(rec) => rec.fingerprint.clone(),
    };
    if !crate::marker::str_eq(in_map.as_str(), in_journal) {
        return Err(
            LedgerError::Mismatched {
                name: journal.name.clone(),
                in_map,
                in_journal: owned(in_journal),
            },
        );
    }
    let ix = match index_markers(map, journal.marker_key.as_str()) {
        Ok(ix) => ix,
        Err(e) => {
            return Err(e);
        },
    };
    proof {
        lemma_index_wf(start, journal.marker_key@);
    }
    let collisions = check(map, &journal.ops, &ix);
    if collisions.len() > 0 && !restore_opts.force {
        return Err(LedgerError::Collisions(collisions));
    }
    undo_edits(map, &journal.ops, &ix);
    let ghost ov = ops_view(journal.ops@);
    let ghost ixv = index_view(ix@);
    let flags_e = created_flags(&journal.ops, &ix, Bucket::Entity, map.entities.len());
    drop_flagged(&mut map.entities, &flags_e);
    let flags_h = created_flags(&journal.ops, &ix, Bucket::Hidden, map.hiddens.len());
    drop_flagged(&mut map.hiddens, &flags_h);
    proof {
        let re = rolled_list(start.entities, ov, ixv, Bucket::Entity);
        let rh = rolled_list(start.hiddens, ov, ixv, Bucket::Hidden);
        assert forall|k: int| 0 <= k < re.len() implies #[trigger] flagged(flags_e@)(k) == created(
            ov,
            ixv,
            Bucket::Entity,
        )(k) by {}
        assert forall|k: int| 0 <= k < rh.len() implies #[trigger] flagged(flags_h@)(k) == created(
            ov,
            ixv,
            Bucket::Hidden,
        )(k) by {}
        lemma_kept_ext(re, flagged(flags_e@), created(ov, ixv, Bucket::Entity), 0);
        lemma_kept_ext(rh, flagged(flags_h@), created(ov, ixv, Bucket::Hidden), 0);
    }
    restore_entities(&mut map.entities, &journal.ops, Bucket::Entity);
    restore_entities(&mut map.hiddens, &journal.ops, Bucket::Hidden);
    strip_markers(&mut map.entities, journal.marker_key.as_str());
    strip_markers(&mut map.hiddens, journal.marker_key.as_str());
    let ghost filed = map@;
    undo_visgroups(map, &journal.visgroups);
    crate::marker::remove(&mut marks, journal.name.as_str());
    crate::marker::write(&mut map.world_key_values, opts.world_key.as_str(), marks.as_slice());
    proof {
        lemma_undone_same_filed(start.rest, filed, map@, journal.visgroups@);
    }
    Ok(())
}

} // verus!
