//! A map under edit: the pristine copy it started from and the working copy a
//! tool changes, and what it takes to finish the edit.
//!
//! Finishing works out what changed, stamps the tool's marker into every entity
//! it touched, puts the entities it created into the tool's visgroup when one is
//! configured, and hands back the map with the journal that undoes exactly
//! those changes. Sealing then records the journal's fingerprint in the map's
//! registry, once the caller has written the journal out.

use source_vmf::prelude::VmfFile;
use vstd::prelude::*;
use vstd::string::StringSliceAdditionalSpecFns;

use crate::diff::{diff, map_diff, match_count, matching_fits, Diff, Mark, MarkView};
use crate::error::LedgerError;
use crate::kv::kv_insert;
use crate::marker::{first_named, read, registry, upsert, with_registry, Record, RecordView};
use crate::matching::{names_view, Matching};
use crate::model::{entity_views, EntityModel, EntityView, MapModel, MapView};
use crate::ops::{ops_view, Bucket, Op, OpView, VisgroupOp};
use crate::rollback::visgroup_removed;
use crate::sidecar::{fingerprint_text, Journal};
use crate::undo::put;
use crate::LedgerOptions;

verus! {

// ---------------------------------------------------------------------------
// Visgroups of the map.
// ---------------------------------------------------------------------------

/// The id of the first visgroup called `name`, searching each group before its
/// children, as `VisGroups::find_by_name` does.
pub uninterp spec fn visgroup_named(rest: VmfFile, name: Seq<char>) -> Option<i32>;

/// Whether some visgroup, at any depth, has id `id`.
pub uninterp spec fn visgroup_id_used(rest: VmfFile, id: i32) -> bool;

/// The id `VisGroups::create` gives a new group: one past the highest in use.
pub uninterp spec fn next_visgroup_id(rest: VmfFile) -> i32;

/// `VisGroups::find_by_name`, keeping the id of the group found. The result
/// depends on the map's visgroups and the name alone.
#[verifier::external_body]
fn find_visgroup(rest: &VmfFile, name: &str) -> (r: Option<i32>)
    ensures
        r == visgroup_named(*rest, name@),
{
    rest.visgroups.find_by_name(name).map(|g| g.id)
}

/// `VisGroups::find_by_id`, asking only whether a group was found.
#[verifier::external_body]
fn visgroup_in_use(rest: &VmfFile, id: i32) -> (r: bool)
    ensures
        r == visgroup_id_used(*rest, id),
{
    rest.visgroups.find_by_id(id).is_some()
}

/// `VisGroups::create`: adds a top-level group called `name` with the next id
/// and returns that id. The source computes the id as the highest id in use
/// plus one, which overflows only where some group already has `i32::MAX`; that
/// case is left out. A search by name that found nothing before finds the new
/// group afterwards, since the only group of that name is the one added. The
/// new group is the only one with its id and sits last in the top-level list,
/// so `VisGroups::remove_by_id` with that id takes exactly it away again. What
/// else the list holds afterwards is not stated.
#[verifier::external_body]
fn create_visgroup(rest: &mut VmfFile, name: String) -> (r: i32)
    requires
        !visgroup_id_used(*old(rest), i32::MAX),
    ensures
        r == next_visgroup_id(*old(rest)),
        visgroup_named(*old(rest), name@) is None ==> visgroup_named(*final(rest), name@) == Some(r),
        visgroup_removed(*final(rest), r) == *old(rest),
{
    rest.visgroups.create(name)
}

/// Whether creating the visgroup `group` in a map can go wrong: only where no
/// group has that name yet and the id that a new one would take overflows.
pub open spec fn visgroup_room(rest: VmfFile, group: Option<String>) -> bool {
    match group {
        None => true,
        Some(g) => visgroup_named(rest, g@) is Some || !visgroup_id_used(rest, i32::MAX),
    }
}

// ---------------------------------------------------------------------------
// Markers and visgroup membership.
// ---------------------------------------------------------------------------

/// An entity with other keyvalues.
pub open spec fn with_key_values(e: EntityView, kv: crate::kv::Entries) -> EntityView {
    EntityView { key_values: kv, connections: e.connections, visgroup_ids: e.visgroup_ids, body: e.body }
}

/// An entity with other visgroup memberships.
pub open spec fn with_visgroups(e: EntityView, ids: Seq<i32>) -> EntityView {
    EntityView { key_values: e.key_values, connections: e.connections, visgroup_ids: ids, body: e.body }
}

/// The list of `bucket` with each mark's token set under `key` in the entity it
/// names, marks taken in order.
pub open spec fn stamp_marks(list: Seq<EntityView>, marks: Seq<MarkView>, bucket: Bucket, key: Seq<char>) -> Seq<EntityView>
    decreases marks.len(),
{
    if marks.len() == 0 {
        list
    } else {
        let prev = stamp_marks(list, marks.drop_last(), bucket, key);
        let m = marks.last();
        if m.bucket == bucket && m.idx < prev.len() {
            prev.update(
                m.idx as int,
                with_key_values(prev[m.idx as int], put(prev[m.idx as int].key_values, key, m.token)),
            )
        } else {
            prev
        }
    }
}

/// Some operation creates the entity with token `t`.
pub open spec fn creates(ops: Seq<OpView>, t: Seq<char>) -> bool {
    exists|k: int| 0 <= k < ops.len() && (#[trigger] ops[k]) is AddEntity && ops[k].at() == t
}

/// Some operation creates an entity.
pub open spec fn creates_any(ops: Seq<OpView>) -> bool {
    exists|k: int| 0 <= k < ops.len() && (#[trigger] ops[k]) is AddEntity
}

/// A membership list after `Editor::join_visgroup(id)`: `id` appended unless it
/// is there already.
pub open spec fn joined(ids: Seq<i32>, id: i32) -> Seq<i32> {
    if ids.contains(id) {
        ids
    } else {
        ids.push(id)
    }
}

/// The list of `bucket` with every entity that a mark names and that `ops`
/// creates joined to visgroup `id`.
pub open spec fn join_created(
    list: Seq<EntityView>,
    marks: Seq<MarkView>,
    bucket: Bucket,
    ops: Seq<OpView>,
    id: i32,
) -> Seq<EntityView>
    decreases marks.len(),
{
    if marks.len() == 0 {
        list
    } else {
        let prev = join_created(list, marks.drop_last(), bucket, ops, id);
        let m = marks.last();
        if m.bucket == bucket && m.idx < prev.len() && creates(ops, m.token) {
            prev.update(
                m.idx as int,
                with_visgroups(prev[m.idx as int], joined(prev[m.idx as int].visgroup_ids, id)),
            )
        } else {
            prev
        }
    }
}

/// The visgroup the created entities go into, and whether it has to be made:
/// none without a configured group or without a created entity; otherwise the
/// first group of that name, or a new one.
pub open spec fn group_for(rest: VmfFile, group: Option<String>, ops: Seq<OpView>) -> Option<(i32, bool)> {
    match group {
        None => None,
        Some(g) => if !creates_any(ops) {
            None
        } else {
            match visgroup_named(rest, g@) {
                Some(id) => Some((id, false)),
                None => Some((next_visgroup_id(rest), true)),
            }
        },
    }
}

/// Whether some operation of `ops` creates the entity with token `token`.
fn is_created(ops: &Vec<Op>, token: &str) -> (r: bool)
    ensures
        r == creates(ops_view(ops@), token@),
{
    let ghost ov = ops_view(ops@);
    let mut k: usize = 0;
    while k < ops.len()
        invariant
            ov == ops_view(ops@),
            k <= ops@.len(),
            forall|q: int| 0 <= q < k ==> !((#[trigger] ov[q]) is AddEntity && ov[q].at() == token@),
        decreases ops.len() - k,
    {
        assert(ov[k as int] == ops@[k as int]@);
        match &ops[k] {
            Op::AddEntity { at, .. } => {
                if crate::marker::str_eq(at.as_str(), token) {
                    return true;
                }
            },
            _ => {},
        }
        k = k + 1;
    }
    false
}

/// Whether some operation of `ops` creates an entity.
fn creates_entity(ops: &Vec<Op>) -> (r: bool)
    ensures
        r == creates_any(ops_view(ops@)),
{
    let ghost ov = ops_view(ops@);
    let mut k: usize = 0;
    while k < ops.len()
        invariant
            ov == ops_view(ops@),
            k <= ops@.len(),
            forall|q: int| 0 <= q < k ==> !((#[trigger] ov[q]) is AddEntity),
        decreases ops.len() - k,
    {
        assert(ov[k as int] == ops@[k as int]@);
        if let Op::AddEntity { .. } = &ops[k] {
            return true;
        }
        k = k + 1;
    }
    false
}

fn list_for(map: &mut MapModel, bucket: Bucket) -> (r: &mut Vec<EntityModel>)
    ensures
        bucket == Bucket::Entity ==> *r == old(map).entities && final(map).entities == *final(r)
            && final(map).hiddens == old(map).hiddens,
        bucket == Bucket::Hidden ==> *r == old(map).hiddens && final(map).hiddens == *final(r)
            && final(map).entities == old(map).entities,
        final(map).world_key_values == old(map).world_key_values,
        final(map).solid_visgroups == old(map).solid_visgroups,
        final(map).rest == old(map).rest,
{
    match bucket {
        Bucket::Entity => &mut map.entities,
        Bucket::Hidden => &mut map.hiddens,
    }
}

fn stamp_one(list: &mut Vec<EntityModel>, idx: usize, key: &String, token: &String)
    ensures
        entity_views(final(list)@) == if idx < old(list)@.len() {
            entity_views(old(list)@).update(
                idx as int,
                with_key_values(
                    old(list)@[idx as int]@,
                    put(old(list)@[idx as int]@.key_values, key@, token@),
                ),
            )
        } else {
            entity_views(old(list)@)
        },
{
    if idx < list.len() {
        let ghost before = entity_views(list@);
        kv_insert(&mut list[idx].key_values, key.clone(), token.clone());
        assert(entity_views(list@) =~= before.update(
            idx as int,
            with_key_values(before[idx as int], put(before[idx as int].key_values, key@, token@)),
        ));
    }
}

/// Stamps each mark's token under `key` into the entity it names.
fn stamp_markers(map: &mut MapModel, marks: &Vec<Mark>, key: &String)
    ensures
        final(map)@.entities == stamp_marks(
            old(map)@.entities,
            crate::diff::marks_view(marks@),
            Bucket::Entity,
            key@,
        ),
        final(map)@.hiddens == stamp_marks(
            old(map)@.hiddens,
            crate::diff::marks_view(marks@),
            Bucket::Hidden,
            key@,
        ),
        final(map)@.world == old(map)@.world,
        final(map)@.solid_visgroups == old(map)@.solid_visgroups,
        final(map)@.rest == old(map)@.rest,
{
    let ghost start = map@;
    let ghost mv = crate::diff::marks_view(marks@);
    let mut k: usize = 0;
    while k < marks.len()
        invariant
            mv == crate::diff::marks_view(marks@),
            k <= marks@.len(),
            map@.entities == stamp_marks(start.entities, mv.subrange(0, k as int), Bucket::Entity, key@),
            map@.hiddens == stamp_marks(start.hiddens, mv.subrange(0, k as int), Bucket::Hidden, key@),
            map@.world == start.world,
            map@.solid_visgroups == start.solid_visgroups,
            map@.rest == start.rest,
        decreases marks.len() - k,
    {
        let m = &marks[k];
        assert(mv.subrange(0, k + 1).drop_last() =~= mv.subrange(0, k as int));
        assert(mv.subrange(0, k + 1).last() == m@);
        let list = list_for(map, m.bucket);
        stamp_one(list, m.idx, key, &m.token);
        k = k + 1;
    }
    assert(mv.subrange(0, marks@.len() as int) =~= mv);
}

fn join_one(list: &mut Vec<EntityModel>, idx: usize, id: i32)
    ensures
        entity_views(final(list)@) == if idx < old(list)@.len() {
            entity_views(old(list)@).update(
                idx as int,
                with_visgroups(old(list)@[idx as int]@, joined(old(list)@[idx as int]@.visgroup_ids, id)),
            )
        } else {
            entity_views(old(list)@)
        },
{
    if idx < list.len() {
        let ghost before = entity_views(list@);
        let present = crate::rollback::contains_id(&list[idx].visgroup_ids, id);
        if !present {
            list[idx].visgroup_ids.push(id);
        }
        assert(entity_views(list@) =~= before.update(
            idx as int,
            with_visgroups(before[idx as int], joined(before[idx as int].visgroup_ids, id)),
        ));
    }
}

/// Puts the entities the tool created into the configured visgroup, making the
/// group if there is none of that name yet. Returns the operation that takes a
/// group made here away again; a group that was there already is left alone on
/// rollback.
fn stamp_visgroup(map: &mut MapModel, opts: &LedgerOptions, ops: &Vec<Op>, marks: &Vec<Mark>) -> (r: Vec<VisgroupOp>)
    requires
        visgroup_room(old(map)@.rest, opts.visgroup),
    ensures
        final(map)@.world == old(map)@.world,
        final(map)@.solid_visgroups == old(map)@.solid_visgroups,
        ({
            let mv = crate::diff::marks_view(marks@);
            let ov = ops_view(ops@);
            match group_for(old(map)@.rest, opts.visgroup, ov) {
                None => final(map)@ == old(map)@ && r@.len() == 0,
                Some((id, made)) => {
                    &&& final(map)@.entities == join_created(old(map)@.entities, mv, Bucket::Entity, ov, id)
                    &&& final(map)@.hiddens == join_created(old(map)@.hiddens, mv, Bucket::Hidden, ov, id)
                    &&& made ==> group_made(r@, id, opts.visgroup) && visgroup_named(
                        final(map)@.rest,
                        opts.visgroup->Some_0@,
                    ) == Some(id) && visgroup_removed(final(map)@.rest, id) == old(map)@.rest
                    &&& !made ==> r@.len() == 0 && final(map)@.rest == old(map)@.rest
                },
            }
        }),
{
    let name = match &opts.visgroup {
        None => {
            return Vec::new();
        },
        Some(n) => n,
    };
    if !creates_entity(ops) {
        return Vec::new();
    }
    let ghost start = map@;
    let ghost mv = crate::diff::marks_view(marks@);
    let ghost ov = ops_view(ops@);
    let existing = find_visgroup(&map.rest, name.as_str());
    let (id, made) = match existing {
        Some(id) => (id, false),
        None => (create_visgroup(&mut map.rest, name.clone()), true),
    };
    let ghost after_create = map@;
    let mut k: usize = 0;
    while k < marks.len()
        invariant
            mv == crate::diff::marks_view(marks@),
            ov == ops_view(ops@),
            k <= marks@.len(),
            map@.entities == join_created(start.entities, mv.subrange(0, k as int), Bucket::Entity, ov, id),
            map@.hiddens == join_created(start.hiddens, mv.subrange(0, k as int), Bucket::Hidden, ov, id),
            map@.world == start.world,
            map@.solid_visgroups == start.solid_visgroups,
            map@.rest == after_create.rest,
        decreases marks.len() - k,
    {
        let m = &marks[k];
        assert(mv.subrange(0, k + 1).drop_last() =~= mv.subrange(0, k as int));
        assert(mv.subrange(0, k + 1).last() == m@);
        if is_created(ops, m.token.as_str()) {
            let list = list_for(map, m.bucket);
            join_one(list, m.idx, id);
        }
        k = k + 1;
    }
    assert(mv.subrange(0, marks@.len() as int) =~= mv);
    if made {
        let mut out: Vec<VisgroupOp> = Vec::new();
        out.push(VisgroupOp::Add { id, name: name.clone() });
        out
    } else {
        Vec::new()
    }
}

/// The operations of a journal that take away one group made by the tool: the
/// group `id` called as configured.
pub open spec fn group_made(v: Seq<VisgroupOp>, id: i32, group: Option<String>) -> bool {
    &&& v.len() == 1
    &&& match v[0] {
        VisgroupOp::Add { id: i, name } => i == id && (match group {
            Some(g) => name@ == g@,
            None => false,
        }),
    }
}

// ---------------------------------------------------------------------------
// The edit.
// ---------------------------------------------------------------------------

/// A map under edit: the pristine copy it started from and the working copy
/// the tool changes.
#[derive(Debug)]
pub struct TrackedVmf {
    original: MapModel,
    working: MapModel,
}

/// The map and journal a finished edit yields, given the diff `d` of the edit:
/// the journal carries the tool's identity and the diff's operations; the map is
/// the working copy with the markers stamped in and, where the tool configured a
/// visgroup and created entities, those entities joined to it.
pub open spec fn finished(
    current: MapView,
    d: crate::diff::DiffView,
    opts: LedgerOptions,
    map: MapView,
    journal: Journal,
) -> bool {
    let key = opts.marker_key@;
    let ents = stamp_marks(current.entities, d.marks, Bucket::Entity, key);
    let hids = stamp_marks(current.hiddens, d.marks, Bucket::Hidden, key);
    &&& journal.name@ == opts.name@
    &&& journal.version@ == opts.version@
    &&& journal.marker_key@ == key
    &&& ops_view(journal.ops@) == d.ops
    &&& journal.legacy() is None
    &&& map.world == current.world
    &&& map.solid_visgroups == current.solid_visgroups
    &&& match group_for(current.rest, opts.visgroup, d.ops) {
        None => {
            &&& map.entities == ents
            &&& map.hiddens == hids
            &&& map.rest == current.rest
            &&& journal.visgroups@.len() == 0
        },
        Some((id, made)) => {
            &&& map.entities == join_created(ents, d.marks, Bucket::Entity, d.ops, id)
            &&& map.hiddens == join_created(hids, d.marks, Bucket::Hidden, d.ops, id)
            &&& made ==> group_made(journal.visgroups@, id, opts.visgroup) && visgroup_named(
                map.rest,
                opts.visgroup->Some_0@,
            ) == Some(id) && visgroup_removed(map.rest, id) == current.rest
            &&& !made ==> journal.visgroups@.len() == 0 && map.rest == current.rest
        },
    }
}

impl TrackedVmf {
    /// The map as it was when the edit began.
    pub closed spec fn pristine(&self) -> MapView {
        self.original@
    }

    /// The map as the tool has left it so far.
    pub closed spec fn current(&self) -> MapView {
        self.working@
    }

    /// Starts an edit of `file`.
    pub fn new(file: MapModel) -> (r: TrackedVmf)
        ensures
            r.pristine() == file@,
            r.current() == file@,
    {
        TrackedVmf { original: file.duplicate(), working: file }
    }

    /// The map as it was when the edit began.
    pub fn original(&self) -> (r: &MapModel)
        ensures
            r@ == self.pristine(),
    {
        &self.original
    }

    /// The map as the tool has left it so far.
    pub fn working(&self) -> (r: &MapModel)
        ensures
            r@ == self.current(),
    {
        &self.working
    }

    /// Borrows the pristine map and the working one at once.
    pub fn split(&mut self) -> (r: (&MapModel, &mut MapModel))
        ensures
            r.0@ == old(self).pristine(),
            r.1@ == old(self).current(),
            final(self).pristine() == old(self).pristine(),
            final(self).current() == final(r.1)@,
    {
        (&self.original, &mut self.working)
    }

    /// Whether finishing with `opts` can make the tool's visgroup where it has
    /// to: false only where no group of that name exists and some group already
    /// has the largest id, so that the next id would overflow.
    pub fn visgroup_fits(&self, opts: &LedgerOptions) -> (r: bool)
        ensures
            r == visgroup_room(self.current().rest, opts.visgroup),
    {
        match &opts.visgroup {
            None => true,
            Some(g) => find_visgroup(&self.working.rest, g.as_str()).is_some() || !visgroup_in_use(
                &self.working.rest,
                i32::MAX,
            ),
        }
    }

    /// What it takes to bring the working map back to the pristine one, given
    /// how their entities (`entities`) and hidden entities (`hiddens`) were
    /// matched.
    pub fn diff(&self, entities: &Matching, hiddens: &Matching) -> (r: Diff)
        requires
            matching_fits(*entities, self.pristine().entities.len(), self.current().entities.len()),
            matching_fits(*hiddens, self.pristine().hiddens.len(), self.current().hiddens.len()),
            match_count(*entities) + match_count(*hiddens) <= u32::MAX,
        ensures
            r@ == map_diff(self.pristine(), self.current(), *entities, *hiddens),
    {
        diff(&self.original, &self.working, entities, hiddens)
    }

    /// Ends the edit: works out what changed and hands back the working map, with
    /// the tool's marker stamped into every entity it touched, and the journal
    /// that takes exactly those changes back. A change that no operation can take
    /// back is refused, with the notes on all such changes. Where the tool
    /// configured a visgroup, the entities it created go into it, the group made
    /// if there is none of that name. The registry is left to [`seal`], once the
    /// journal has been written out.
    pub fn finish(self, opts: &LedgerOptions, entities: &Matching, hiddens: &Matching) -> (r: Result<
        (MapModel, Journal),
        LedgerError,
    >)
        requires
            matching_fits(*entities, self.pristine().entities.len(), self.current().entities.len()),
            matching_fits(*hiddens, self.pristine().hiddens.len(), self.current().hiddens.len()),
            match_count(*entities) + match_count(*hiddens) <= u32::MAX,
            visgroup_room(self.current().rest, opts.visgroup),
        ensures
            ({
                let d = map_diff(self.pristine(), self.current(), *entities, *hiddens);
                &&& d.untracked.len() > 0 ==> (r matches Err(LedgerError::Untracked(u)) && names_view(
                    u@,
                ) == d.untracked)
                &&& d.untracked.len() == 0 ==> (r matches Ok(p) && finished(
                    self.current(),
                    d,
                    *opts,
                    p.0@,
                    p.1,
                ))
            }),
    {
        let ghost cur = self.current();
        let d = diff(&self.original, &self.working, entities, hiddens);
        if d.untracked.len() > 0 {
            return Err(LedgerError::Untracked(d.untracked));
        }
        let Diff { ops, marks, .. } = d;
        let mut working = self.working;
        stamp_markers(&mut working, &marks, &opts.marker_key);
        let visgroups = stamp_visgroup(&mut working, opts, &ops, &marks);
        let journal = Journal::new(
            opts.name.clone(),
            opts.version.clone(),
            opts.marker_key.clone(),
            ops,
            visgroups,
        );
        Ok((working, journal))
    }

    /// [`TrackedVmf::finish`] where the tool's visgroup can be made; `None`,
    /// finishing nothing, where making it would overflow the visgroup ids.
    pub fn finish_checked(self, opts: &LedgerOptions, entities: &Matching, hiddens: &Matching) -> (r: Option<
        Result<(MapModel, Journal), LedgerError>,
    >)
        requires
            matching_fits(*entities, self.pristine().entities.len(), self.current().entities.len()),
            matching_fits(*hiddens, self.pristine().hiddens.len(), self.current().hiddens.len()),
            match_count(*entities) + match_count(*hiddens) <= u32::MAX,
        ensures
            r is None <==> !visgroup_room(self.current().rest, opts.visgroup),
            ({
                let d = map_diff(self.pristine(), self.current(), *entities, *hiddens);
                match r {
                    None => true,
                    Some(res) => {
                        &&& d.untracked.len() > 0 ==> (res matches Err(LedgerError::Untracked(u))
                            && names_view(u@) == d.untracked)
                        &&& d.untracked.len() == 0 ==> (res matches Ok(p) && finished(
                            self.current(),
                            d,
                            *opts,
                            p.0@,
                            p.1,
                        ))
                    },
                }
            }),
    {
        if !self.visgroup_fits(opts) {
            return None;
        }
        Some(self.finish(opts, entities, hiddens))
    }
}

/// The registry `s` with `r` written in: over the first record of the same
/// name, or at the end.
pub open spec fn upserted(s: Seq<RecordView>, r: RecordView) -> Seq<RecordView> {
    match first_named(s, r.name) {
        Some(i) => s.update(i, r),
        None => s.push(r),
    }
}

/// The fingerprint a journal is recorded under, given its text as written out.
pub open spec fn journal_fingerprint(journal: Journal, json: Seq<u8>) -> Seq<char> {
    match journal.legacy() {
        Some(carried) => carried@,
        None => fingerprint_text(json),
    }
}

/// Records a finished edit in the map's registry: the tool's record, carrying
/// the fingerprint of `journal` as written out in `json`, replaces the tool's
/// previous one or goes last. A journal that records nothing leaves the map as
/// it is.
pub fn seal(map: &mut MapModel, journal: &Journal, opts: &LedgerOptions, json: &str)
    ensures
        journal.ops@.len() == 0 && journal.visgroups@.len() == 0 ==> final(map)@ == old(map)@,
        !(journal.ops@.len() == 0 && journal.visgroups@.len() == 0) ==> {
            &&& final(map)@.world == with_registry(
                old(map)@.world,
                opts.world_key@,
                upserted(
                    registry(old(map)@.world, opts.world_key@),
                    RecordView {
                        name: opts.name@,
                        version: opts.version@,
                        fingerprint: journal_fingerprint(*journal, json.spec_bytes()),
                    },
                ),
            )
            &&& final(map)@.entities == old(map)@.entities
            &&& final(map)@.hiddens == old(map)@.hiddens
            &&& final(map)@.solid_visgroups == old(map)@.solid_visgroups
            &&& final(map)@.rest == old(map)@.rest
        },
{
    if journal.is_empty() {
        return ;
    }
    let mut registry = read(&map.world_key_values, opts.world_key.as_str());
    let record = Record {
        name: opts.name.clone(),
        version: opts.version.clone(),
        fingerprint: journal.fingerprint_with(json),
    };
    upsert(&mut registry, record);
    crate::marker::write(&mut map.world_key_values, opts.world_key.as_str(), registry.as_slice());
}

} // verus!
