//! Works out what changed between a pristine and a modified map, as the inverse
//! operations that undo it.
//!
//! Only entity keyvalues and connections are tracked. Changes to typed
//! structures (brushes, the editor block, top-level map sections) cannot be
//! expressed as generic inverse operations and are reported as untracked.

use indexmap::IndexMap;
use source_vmf::prelude::{Entity, VmfFile};
use vstd::prelude::*;

use crate::kv::{entries_of, has_key, kv_get, kv_get_index, kv_index_of, kv_len, lookup, Entries};
use crate::matching::{names_view, Confidence, Matching, Pair};
use crate::model::{
    conns_view, entity_views, same_conns, Connection, EntityModel, EntityView, MapModel, MapView,
};
use crate::ops::{as_written, lemma_ops_view_push, ops_view, written, Bucket, Op, OpView, Token};
use crate::text::{decimal, decimal_string, owned};
use crate::undo::stamp;

verus! {

/// The operations that undo the change of entry `i` of `before`: a value the
/// tool changed goes back, a key the tool removed comes back at `i`.
pub open spec fn undo_entry(before: Entries, after: Entries, i: int) -> Seq<OpView> {
    let k = before[i].0;
    let v = before[i].1;
    match lookup(after, k) {
        Some(nv) => if nv != v {
            seq![OpView::Change { at: Seq::empty(), key: k, old: v, new: nv }]
        } else {
            Seq::empty()
        },
        None => seq![OpView::Remove { at: Seq::empty(), idx: i as nat, key: k, old: v }],
    }
}

/// The operations for the first `n` entries of `before`, in order.
pub open spec fn undo_before(before: Entries, after: Entries, n: int) -> Seq<OpView>
    decreases n,
{
    if n <= 0 {
        Seq::empty()
    } else {
        undo_before(before, after, n - 1) + undo_entry(before, after, n - 1)
    }
}

/// The operations for the first `n` entries of `after`: each key the tool added
/// is to be dropped again.
pub open spec fn undo_after(before: Entries, after: Entries, n: int) -> Seq<OpView>
    decreases n,
{
    if n <= 0 {
        Seq::empty()
    } else if !has_key(before, after[n - 1].0) {
        undo_after(before, after, n - 1).push(
            OpView::Add { at: Seq::empty(), key: after[n - 1].0, new: after[n - 1].1 },
        )
    } else {
        undo_after(before, after, n - 1)
    }
}

/// The keyvalue operations that take `after` back to `before`, not yet stamped
/// with a token: changed and removed keys in the order of `before`, then added
/// keys in the order of `after`.
pub open spec fn keyvalue_diff(before: Entries, after: Entries) -> Seq<OpView> {
    undo_before(before, after, before.len() as int) + undo_after(before, after, after.len() as int)
}

/// Appends to `ops` the operations that take the keyvalues `after` back to
/// `before`.
pub fn diff_key_values(
    before: &IndexMap<String, String>,
    after: &IndexMap<String, String>,
    ops: &mut Vec<Op>,
)
    ensures
        ops_view(final(ops)@) == ops_view(old(ops)@) + keyvalue_diff(
            entries_of(*before),
            entries_of(*after),
        ),
{
    let ghost b = entries_of(*before);
    let ghost a = entries_of(*after);
    let ghost start = ops_view(ops@);
    let nb = kv_len(before);
    let mut idx: usize = 0;
    while idx < nb
        invariant
            nb == b.len(),
            b == entries_of(*before),
            a == entries_of(*after),
            idx <= nb,
            ops_view(ops@) == start + undo_before(b, a, idx as int),
        decreases nb - idx,
    {
        let (key, old) = match kv_get_index(before, idx) {
            Some(p) => p,
            None => {
                return ;
            },
        };
        let ghost prev = ops@;
        match kv_get(after, key.as_str()) {
            Some(new) => {
                if !(*new == *old) {
                    let op = Op::Change {
                        at: String::new(),
                        key: key.clone(),
                        old: old.clone(),
                        new: new.clone(),
                    };
                    proof {
                        lemma_ops_view_push(ops@, op);
                    }
                    ops.push(op);
                }
            },
            None => {
                let op = Op::Remove { at: String::new(), idx, key: key.clone(), old: old.clone() };
                proof {
                    lemma_ops_view_push(ops@, op);
                }
                ops.push(op);
            },
        }
        assert(ops_view(ops@) == ops_view(prev) + undo_entry(b, a, idx as int));
        idx = idx + 1;
    }
    let na = kv_len(after);
    let mut j: usize = 0;
    while j < na
        invariant
            nb == b.len(),
            na == a.len(),
            b == entries_of(*before),
            a == entries_of(*after),
            j <= na,
            ops_view(ops@) == start + undo_before(b, a, nb as int) + undo_after(b, a, j as int),
        decreases na - j,
    {
        let (key, new) = match kv_get_index(after, j) {
            Some(p) => p,
            None => {
                return ;
            },
        };
        if kv_index_of(before, key.as_str()).is_none() {
            let op = Op::Add { at: String::new(), key: key.clone(), new: new.clone() };
            proof {
                lemma_ops_view_push(ops@, op);
            }
            ops.push(op);
        }
        j = j + 1;
    }
    assert(ops_view(ops@) == start + keyvalue_diff(b, a));
}

// ---------------------------------------------------------------------------
// Entity ids.
// ---------------------------------------------------------------------------

/// Whether `c` is an ASCII digit.
pub open spec fn is_digit(c: char) -> bool {
    '0' <= c && c <= '9'
}

/// The number the digits `s` spell in decimal.
pub open spec fn digits_value(s: Seq<char>) -> nat
    decreases s.len(),
{
    if s.len() == 0 {
        0
    } else {
        digits_value(s.drop_last()) * 10 + ((s.last() as nat) - ('0' as nat)) as nat
    }
}

/// `s` without one leading `+`, if it has one.
pub open spec fn unsigned_part(s: Seq<char>) -> Seq<char> {
    if s.len() > 0 && s[0] == '+' {
        s.drop_first()
    } else {
        s
    }
}

/// Every character of `d` is an ASCII digit.
pub open spec fn all_digits(d: Seq<char>) -> bool {
    forall|i: int| 0 <= i < d.len() ==> is_digit(#[trigger] d[i])
}

/// What `str::parse::<u64>` makes of `s`: an optional `+`, then one or more
/// ASCII digits whose value fits in 64 bits; anything else is refused.
pub open spec fn parsed_u64(s: Seq<char>) -> Option<nat> {
    let d = unsigned_part(s);
    if d.len() > 0 && all_digits(d) && digits_value(d) <= u64::MAX {
        Some(digits_value(d))
    } else {
        None
    }
}

proof fn lemma_digits_grow(s: Seq<char>, n: int)
    requires
        0 <= n <= s.len(),
        all_digits(s),
    ensures
        digits_value(s.subrange(0, n)) <= digits_value(s),
    decreases s.len() - n,
{
    if n < s.len() {
        lemma_digits_grow(s, n + 1);
        assert(s.subrange(0, n + 1).drop_last() =~= s.subrange(0, n));
    } else {
        assert(s.subrange(0, n) =~= s);
    }
}

/// Reads a whole decimal number as `str::parse::<u64>` does.
pub fn parse_u64(s: &str) -> (r: Option<u64>)
    ensures
        match parsed_u64(s@) {
            Some(v) => r == Some(v as u64),
            None => r is None,
        },
{
    let n = s.unicode_len();
    let mut i: usize = 0;
    if n > 0 && s.get_char(0) == '+' {
        i = 1;
    }
    let ghost d = unsigned_part(s@);
    let start = i;
    assert(d =~= s@.subrange(start as int, n as int));
    if start == n {
        return None;
    }
    let mut value: u64 = 0;
    while i < n
        invariant
            n == s@.len(),
            start <= i <= n,
            start < n,
            d == s@.subrange(start as int, n as int),
            d == unsigned_part(s@),
            forall|k: int| 0 <= k < i - start ==> is_digit(#[trigger] d[k]),
            value == digits_value(d.subrange(0, i - start)),
        decreases n - i,
    {
        let c = s.get_char(i);
        if !('0' <= c && c <= '9') {
            assert(!is_digit(d[i - start]));
            assert(!all_digits(d));
            return None;
        }
        let digit = (c as u32 - '0' as u32) as u64;
        assert(d.subrange(0, i + 1 - start).drop_last() =~= d.subrange(0, i - start));
        assert(d.subrange(0, i + 1 - start).last() == c);
        assert(digits_value(d.subrange(0, i + 1 - start)) == value * 10 + digit);
        match value.checked_mul(10) {
            None => {
                proof {
                    if all_digits(d) {
                        lemma_digits_grow(d, i + 1 - start);
                    }
                }
                return None;
            },
            Some(tens) => match tens.checked_add(digit) {
                None => {
                    proof {
                        if all_digits(d) {
                            lemma_digits_grow(d, i + 1 - start);
                        }
                    }
                    return None;
                },
                Some(next) => {
                    value = next;
                },
            },
        }
        i = i + 1;
    }
    assert(d.subrange(0, n - start) =~= d);
    Some(value)
}

/// The id an entity carries, as `Entity::id` reads it: its `id` keyvalue as a
/// number, or 0 where there is none or it is not a number.
pub open spec fn entity_id_of(e: Entries) -> nat {
    match lookup(e, "id"@) {
        Some(v) => match parsed_u64(v) {
            Some(n) => n,
            None => 0,
        },
        None => 0,
    }
}

/// The id of an entity with keyvalues `kv`.
pub fn entity_id(kv: &IndexMap<String, String>) -> (r: u64)
    ensures
        r as nat == entity_id_of(entries_of(*kv)),
{
    match kv_get(kv, "id") {
        Some(v) => match parse_u64(v.as_str()) {
            Some(n) => n,
            None => 0,
        },
        None => 0,
    }
}

// ---------------------------------------------------------------------------
// What a diff yields.
// ---------------------------------------------------------------------------

/// Where the tool's marker goes: entity `idx` of `bucket` gets `token`.
#[derive(Debug)]
pub struct Mark {
    pub bucket: Bucket,
    pub idx: usize,
    pub token: Token,
}

/// The view of a [`Mark`].
pub struct MarkView {
    pub bucket: Bucket,
    pub idx: nat,
    pub token: Seq<char>,
}

impl View for Mark {
    type V = MarkView;

    open spec fn view(&self) -> MarkView {
        MarkView { bucket: self.bucket, idx: self.idx as nat, token: self.token@ }
    }
}

/// The views of a list of marks.
pub open spec fn marks_view(s: Seq<Mark>) -> Seq<MarkView> {
    s.map_values(|m: Mark| m@)
}

/// The operations that take a modified map back, where the markers go, and the
/// changes that no operation can take back.
#[derive(Debug)]
pub struct Diff {
    pub ops: Vec<Op>,
    pub marks: Vec<Mark>,
    /// Descriptions of changes outside the tracked scope.
    pub untracked: Vec<String>,
}

/// The view of a [`Diff`].
pub struct DiffView {
    pub ops: Seq<OpView>,
    pub marks: Seq<MarkView>,
    pub untracked: Seq<Seq<char>>,
}

impl View for Diff {
    type V = DiffView;

    open spec fn view(&self) -> DiffView {
        DiffView {
            ops: ops_view(self.ops@),
            marks: marks_view(self.marks@),
            untracked: names_view(self.untracked@),
        }
    }
}

/// A diff with nothing in it.
pub open spec fn empty_diff() -> DiffView {
    DiffView { ops: Seq::empty(), marks: Seq::empty(), untracked: Seq::empty() }
}

// ---------------------------------------------------------------------------
// Comparisons of what the ledger does not model.
// ---------------------------------------------------------------------------

/// Whether two entities' brushes differ (`!=` on their `solids`).
pub uninterp spec fn solids_differ(a: Entity, b: Entity) -> bool;

/// Whether two entities' editor blocks differ (`!=` on their `editor`).
pub uninterp spec fn editors_differ(a: Entity, b: Entity) -> bool;

/// Whether two entities' unmodelled blocks differ (`!=` on their `extra`).
pub uninterp spec fn extras_differ(a: Entity, b: Entity) -> bool;

/// Whether two maps' `world` blocks differ (`!=` on their `world`).
pub uninterp spec fn worlds_differ(a: VmfFile, b: VmfFile) -> bool;

/// Whether two maps' `versioninfo` blocks differ.
pub uninterp spec fn versioninfos_differ(a: VmfFile, b: VmfFile) -> bool;

/// Whether two maps' visgroup lists differ.
pub uninterp spec fn visgroup_lists_differ(a: VmfFile, b: VmfFile) -> bool;

/// Whether two maps' `viewsettings` blocks differ.
pub uninterp spec fn viewsettings_differ(a: VmfFile, b: VmfFile) -> bool;

/// Whether two maps' `cameras` blocks differ.
pub uninterp spec fn cameras_differ(a: VmfFile, b: VmfFile) -> bool;

/// Whether two maps' `cordons` blocks differ.
pub uninterp spec fn cordons_differ(a: VmfFile, b: VmfFile) -> bool;

/// Whether two maps' unmodelled top-level blocks differ.
pub uninterp spec fn extra_blocks_differ(a: VmfFile, b: VmfFile) -> bool;

/// `PartialEq::ne` on `Entity::solids`, which `source_vmf` derives: a result
/// that depends on the two entities alone.
#[verifier::external_body]
fn solids_changed(a: &Entity, b: &Entity) -> (r: bool)
    ensures
        r == solids_differ(*a, *b),
{
    a.solids != b.solids
}

/// `PartialEq::ne` on `Entity::editor`, derived by `source_vmf`.
#[verifier::external_body]
fn editor_changed(a: &Entity, b: &Entity) -> (r: bool)
    ensures
        r == editors_differ(*a, *b),
{
    a.editor != b.editor
}

/// `PartialEq::ne` on `Entity::extra`, derived by `source_vmf`.
#[verifier::external_body]
fn extra_changed(a: &Entity, b: &Entity) -> (r: bool)
    ensures
        r == extras_differ(*a, *b),
{
    a.extra != b.extra
}

/// `PartialEq::ne` on `VmfFile::world`, derived by `source_vmf`.
#[verifier::external_body]
fn world_changed(a: &VmfFile, b: &VmfFile) -> (r: bool)
    ensures
        r == worlds_differ(*a, *b),
{
    a.world != b.world
}

/// `PartialEq::ne` on `VmfFile::versioninfo`, derived by `source_vmf`.
#[verifier::external_body]
fn versioninfo_changed(a: &VmfFile, b: &VmfFile) -> (r: bool)
    ensures
        r == versioninfos_differ(*a, *b),
{
    a.versioninfo != b.versioninfo
}

/// `PartialEq::ne` on `VmfFile::visgroups`, derived by `source_vmf`.
#[verifier::external_body]
fn visgroups_changed(a: &VmfFile, b: &VmfFile) -> (r: bool)
    ensures
        r == visgroup_lists_differ(*a, *b),
{
    a.visgroups != b.visgroups
}

/// `PartialEq::ne` on `VmfFile::viewsettings`, derived by `source_vmf`.
#[verifier::external_body]
fn viewsettings_changed(a: &VmfFile, b: &VmfFile) -> (r: bool)
    ensures
        r == viewsettings_differ(*a, *b),
{
    a.viewsettings != b.viewsettings
}

/// `PartialEq::ne` on `VmfFile::cameras`, derived by `source_vmf`.
#[verifier::external_body]
fn cameras_changed(a: &VmfFile, b: &VmfFile) -> (r: bool)
    ensures
        r == cameras_differ(*a, *b),
{
    a.cameras != b.cameras
}

/// `PartialEq::ne` on `VmfFile::cordons`, derived by `source_vmf`.
#[verifier::external_body]
fn cordons_changed(a: &VmfFile, b: &VmfFile) -> (r: bool)
    ensures
        r == cordons_differ(*a, *b),
{
    a.cordons != b.cordons
}

/// `PartialEq::ne` on `VmfFile::extra_blocks`, derived by `source_vmf`.
#[verifier::external_body]
fn extra_blocks_changed(a: &VmfFile, b: &VmfFile) -> (r: bool)
    ensures
        r == extra_blocks_differ(*a, *b),
{
    a.extra_blocks != b.extra_blocks
}

// ---------------------------------------------------------------------------
// Equality of modelled parts.
// ---------------------------------------------------------------------------

/// Two keyvalue lists hold the same keys with the same values, in any order, as
/// `==` on `IndexMap` decides.
pub open spec fn same_map(a: Entries, b: Entries) -> bool {
    a.len() == b.len() && forall|i: int| 0 <= i < a.len() ==> lookup(b, #[trigger] a[i].0) == Some(
        a[i].1,
    )
}

/// Whether two keyvalue lists are equal as maps.
pub fn same_key_values(a: &IndexMap<String, String>, b: &IndexMap<String, String>) -> (r: bool)
    ensures
        r == same_map(entries_of(*a), entries_of(*b)),
{
    let n = kv_len(a);
    if n != kv_len(b) {
        return false;
    }
    let mut i: usize = 0;
    while i < n
        invariant
            n == entries_of(*a).len(),
            n == entries_of(*b).len(),
            i <= n,
            forall|k: int| 0 <= k < i ==> lookup(entries_of(*b), #[trigger] entries_of(*a)[k].0) == Some(
                entries_of(*a)[k].1,
            ),
        decreases n - i,
    {
        let (key, value) = match kv_get_index(a, i) {
            Some(p) => p,
            None => {
                return false;
            },
        };
        match kv_get(b, key.as_str()) {
            Some(v) => {
                if !(*v == *value) {
                    return false;
                }
            },
            None => {
                return false;
            },
        }
        i = i + 1;
    }
    true
}

/// Whether two lists of visgroup ids are the same.
pub fn same_ids(a: &Vec<i32>, b: &Vec<i32>) -> (r: bool)
    ensures
        r == (a@ == b@),
{
    if a.len() != b.len() {
        return false;
    }
    let mut i: usize = 0;
    while i < a.len()
        invariant
            a@.len() == b@.len(),
            i <= a@.len(),
            forall|k: int| 0 <= k < i ==> a@[k] == b@[k],
        decreases a.len() - i,
    {
        if a[i] != b[i] {
            return false;
        }
        i = i + 1;
    }
    assert(a@ =~= b@);
    true
}

/// The views of a list of id lists.
pub open spec fn id_lists_view(v: Seq<Vec<i32>>) -> Seq<Seq<i32>> {
    v.map_values(|x: Vec<i32>| x@)
}

/// Whether two lists of id lists are the same.
pub fn same_id_lists(a: &Vec<Vec<i32>>, b: &Vec<Vec<i32>>) -> (r: bool)
    ensures
        r == (id_lists_view(a@) == id_lists_view(b@)),
{
    if a.len() != b.len() {
        assert(id_lists_view(a@).len() != id_lists_view(b@).len());
        return false;
    }
    let mut i: usize = 0;
    while i < a.len()
        invariant
            a@.len() == b@.len(),
            i <= a@.len(),
            forall|k: int| 0 <= k < i ==> a@[k]@ == b@[k]@,
        decreases a.len() - i,
    {
        if !same_ids(&a[i], &b[i]) {
            assert(id_lists_view(a@)[i as int] != id_lists_view(b@)[i as int]);
            return false;
        }
        i = i + 1;
    }
    assert(id_lists_view(a@) =~= id_lists_view(b@));
    true
}

// ---------------------------------------------------------------------------
// Notes on untracked changes.
// ---------------------------------------------------------------------------

/// `note` if `b`, else nothing.
pub open spec fn note_if(b: bool, note: Seq<char>) -> Seq<Seq<char>> {
    if b {
        seq![note]
    } else {
        Seq::empty()
    }
}

/// `entity <id><what>`.
pub open spec fn entity_note(e: Entries, what: Seq<char>) -> Seq<char> {
    "entity "@ + decimal(entity_id_of(e)) + what
}

/// The notes on the parts of an entity no operation can take back.
pub open spec fn body_notes(b: EntityView, a: EntityView) -> Seq<Seq<char>> {
    note_if(solids_differ(b.body, a.body), entity_note(b.key_values, ": solids changed"@))
        + note_if(
        editors_differ(b.body, a.body) || b.visgroup_ids != a.visgroup_ids,
        entity_note(b.key_values, ": editor block changed"@),
    ) + note_if(
        extras_differ(b.body, a.body),
        entity_note(b.key_values, ": unmodelled blocks changed"@),
    )
}

/// The note on a pair too weak to roll back.
pub open spec fn weak_note(b: EntityView, score: Seq<char>) -> Seq<char> {
    entity_note(b.key_values, ": matched only by similarity ("@ + score
        + "), too weak to roll back"@)
}

/// The notes on the top-level sections of a map that changed.
pub open spec fn section_notes(o: MapView, w: MapView) -> Seq<Seq<char>> {
    note_if(
        !same_map(o.world, w.world) || o.solid_visgroups != w.solid_visgroups || worlds_differ(
            o.rest,
            w.rest,
        ),
        "world changed"@,
    ) + note_if(versioninfos_differ(o.rest, w.rest), "versioninfo changed"@) + note_if(
        visgroup_lists_differ(o.rest, w.rest),
        "visgroups changed"@,
    ) + note_if(viewsettings_differ(o.rest, w.rest), "viewsettings changed"@) + note_if(
        cameras_differ(o.rest, w.rest),
        "cameras changed"@,
    ) + note_if(cordons_differ(o.rest, w.rest), "cordons changed"@) + note_if(
        extra_blocks_differ(o.rest, w.rest),
        "extra blocks changed"@,
    )
}

fn id_note(id: &String, what: &str) -> (r: String)
    ensures
        r@ == "entity "@ + id@ + what@,
{
    let mut m = owned("entity ");
    m.append(id.as_str());
    m.append(what);
    m
}

fn push_note_if(out: &mut Vec<String>, b: bool, note: String)
    ensures
        names_view(final(out)@) == names_view(old(out)@) + note_if(b, note@),
{
    let ghost before = names_view(out@);
    if b {
        out.push(note);
        assert(names_view(out@) =~= before + seq![note@]);
    } else {
        assert(names_view(out@) =~= before + Seq::<Seq<char>>::empty());
    }
}

/// Records the changes to the parts of an entity no operation can take back.
pub fn note_untracked_entity(before: &EntityModel, after: &EntityModel, out: &mut Vec<String>)
    ensures
        names_view(final(out)@) == names_view(old(out)@) + body_notes(before@, after@),
{
    let ghost start = names_view(out@);
    let id = decimal_string(entity_id(&before.key_values));
    let solids = solids_changed(&before.body, &after.body);
    push_note_if(out, solids, id_note(&id, ": solids changed"));
    let editor = editor_changed(&before.body, &after.body) || !same_ids(
        &before.visgroup_ids,
        &after.visgroup_ids,
    );
    push_note_if(out, editor, id_note(&id, ": editor block changed"));
    let extra = extra_changed(&before.body, &after.body);
    push_note_if(out, extra, id_note(&id, ": unmodelled blocks changed"));
    assert(names_view(out@) =~= start + body_notes(before@, after@));
}

fn weak_note_text(before: &EntityModel, score: &String) -> (r: String)
    ensures
        r@ == weak_note(before@, score@),
{
    let id = decimal_string(entity_id(&before.key_values));
    let mut m = id_note(&id, ": matched only by similarity (");
    m.append(score.as_str());
    m.append("), too weak to roll back");
    assert(m@ =~= weak_note(before@, score@));
    m
}

/// Records the top-level sections of a map that changed.
pub fn note_untracked(original: &MapModel, working: &MapModel, out: &mut Vec<String>)
    ensures
        names_view(final(out)@) == names_view(old(out)@) + section_notes(original@, working@),
{
    let ghost start = names_view(out@);
    let ghost (o, w) = (original@, working@);
    let world = !same_key_values(&original.world_key_values, &working.world_key_values)
        || !same_id_lists(&original.solid_visgroups, &working.solid_visgroups) || world_changed(
        &original.rest,
        &working.rest,
    );
    let versioninfo = versioninfo_changed(&original.rest, &working.rest);
    let visgroups = visgroups_changed(&original.rest, &working.rest);
    let viewsettings = viewsettings_changed(&original.rest, &working.rest);
    let cameras = cameras_changed(&original.rest, &working.rest);
    let cordons = cordons_changed(&original.rest, &working.rest);
    let extra = extra_blocks_changed(&original.rest, &working.rest);
    assert(world == (!same_map(o.world, w.world) || o.solid_visgroups != w.solid_visgroups
        || worlds_differ(o.rest, w.rest)));
    let ghost n1 = note_if(world, "world changed"@);
    let ghost n2 = note_if(versioninfo, "versioninfo changed"@);
    let ghost n3 = note_if(visgroups, "visgroups changed"@);
    let ghost n4 = note_if(viewsettings, "viewsettings changed"@);
    let ghost n5 = note_if(cameras, "cameras changed"@);
    let ghost n6 = note_if(cordons, "cordons changed"@);
    let ghost n7 = note_if(extra, "extra blocks changed"@);
    push_note_if(out, world, owned("world changed"));
    push_note_if(out, versioninfo, owned("versioninfo changed"));
    push_note_if(out, visgroups, owned("visgroups changed"));
    push_note_if(out, viewsettings, owned("viewsettings changed"));
    push_note_if(out, cameras, owned("cameras changed"));
    push_note_if(out, cordons, owned("cordons changed"));
    push_note_if(out, extra, owned("extra blocks changed"));
    proof {
        lemma_concat7(start, n1, n2, n3, n4, n5, n6, n7);
        assert(section_notes(o, w) == n1 + n2 + n3 + n4 + n5 + n6 + n7);
    }
}

proof fn lemma_concat7<A>(
    s: Seq<A>,
    a: Seq<A>,
    b: Seq<A>,
    c: Seq<A>,
    d: Seq<A>,
    e: Seq<A>,
    f: Seq<A>,
    g: Seq<A>,
)
    ensures
        s + a + b + c + d + e + f + g == s + (a + b + c + d + e + f + g),
{
    assert(s + a + b + c + d + e + f + g =~= s + (a + b + c + d + e + f + g));
}

// ---------------------------------------------------------------------------
// The diff of a matched bucket.
// ---------------------------------------------------------------------------

/// The operations that take entity `a` back to `b`, not yet stamped: its
/// keyvalues, then its connections as the file writes them if they differ.
pub open spec fn pair_ops(b: EntityView, a: EntityView) -> Seq<OpView> {
    let kv = keyvalue_diff(b.key_values, a.key_values);
    let (o, n) = (written(b.connections), written(a.connections));
    if o != n {
        kv.push(OpView::Connections { at: Seq::empty(), old: o, new: n })
    } else {
        kv
    }
}

/// The pairs of a matching: old position, new position, stage, score.
pub open spec fn pairs_of(m: Matching) -> Seq<(int, int, Confidence, Seq<char>)> {
    m.pairs@.map_values(|p: Pair| (p.old as int, p.new as int, p.confidence, p.score@))
}

/// A list of positions as integers.
pub open spec fn positions(v: Seq<usize>) -> Seq<int> {
    v.map_values(|i: usize| i as int)
}

/// Every position a matching names lies inside the lists it was made from.
pub open spec fn matching_fits(m: Matching, n_old: nat, n_new: nat) -> bool {
    &&& forall|k: int| 0 <= k < m.pairs@.len() ==> (#[trigger] m.pairs@[k]).old < n_old
        && m.pairs@[k].new < n_new
    &&& forall|k: int| 0 <= k < m.only_old@.len() ==> #[trigger] m.only_old@[k] < n_old
    &&& forall|k: int| 0 <= k < m.only_new@.len() ==> #[trigger] m.only_new@[k] < n_new
}

/// How many tokens a matching can use up at most.
pub open spec fn match_count(m: Matching) -> nat {
    m.pairs@.len() + m.only_old@.len() + m.only_new@.len()
}

/// One matched pair added to a diff that has handed out `acc.1` tokens. Notes
/// on the entity's untracked parts always go in. A pair with nothing to undo
/// stops there; one paired only by similarity is refused with a note, since a
/// rollback must find the same entity again for certain; otherwise the next
/// token is stamped into its operations and its marker placed on `a`.
pub open spec fn diff_pair(
    acc: (DiffView, nat),
    bucket: Bucket,
    b: EntityView,
    a: EntityView,
    at: int,
    confidence: Confidence,
    score: Seq<char>,
) -> (DiffView, nat) {
    let d = acc.0;
    let ops = pair_ops(b, a);
    let notes = d.untracked + body_notes(b, a);
    if ops.len() == 0 {
        (DiffView { ops: d.ops, marks: d.marks, untracked: notes }, acc.1)
    } else if confidence.level() < 1 {
        (DiffView { ops: d.ops, marks: d.marks, untracked: notes.push(weak_note(b, score)) }, acc.1)
    } else {
        let t = decimal(acc.1 + 1);
        (
            DiffView {
                ops: d.ops + stamp(ops, t),
                marks: d.marks.push(MarkView { bucket, idx: at as nat, token: t }),
                untracked: notes,
            },
            acc.1 + 1,
        )
    }
}

/// The first `n` pairs added to a diff, in order.
pub open spec fn diff_pairs(
    acc: (DiffView, nat),
    bucket: Bucket,
    olds: Seq<EntityView>,
    news: Seq<EntityView>,
    pairs: Seq<(int, int, Confidence, Seq<char>)>,
    n: int,
) -> (DiffView, nat)
    decreases n,
{
    if n <= 0 {
        acc
    } else {
        let p = pairs[n - 1];
        diff_pair(diff_pairs(acc, bucket, olds, news, pairs, n - 1), bucket, olds[p.0], news[p.1], p.1, p.2, p.3)
    }
}

/// The first `n` entities the tool created added to a diff: each takes the next
/// token, to be deleted again on rollback.
pub open spec fn diff_added(acc: (DiffView, nat), bucket: Bucket, only_new: Seq<int>, n: int) -> (DiffView, nat)
    decreases n,
{
    if n <= 0 {
        acc
    } else {
        let prev = diff_added(acc, bucket, only_new, n - 1);
        let t = decimal(prev.1 + 1);
        (
            DiffView {
                ops: prev.0.ops.push(OpView::AddEntity { at: t, bucket }),
                marks: prev.0.marks.push(MarkView { bucket, idx: only_new[n - 1] as nat, token: t }),
                untracked: prev.0.untracked,
            },
            prev.1 + 1,
        )
    }
}

/// The first `n` entities the tool deleted added to a diff: each takes the next
/// token and keeps a copy of the entity, to be put back on rollback.
pub open spec fn diff_removed(
    acc: (DiffView, nat),
    bucket: Bucket,
    olds: Seq<EntityView>,
    only_old: Seq<int>,
    n: int,
) -> (DiffView, nat)
    decreases n,
{
    if n <= 0 {
        acc
    } else {
        let prev = diff_removed(acc, bucket, olds, only_old, n - 1);
        let t = decimal(prev.1 + 1);
        let i = only_old[n - 1];
        (
            DiffView {
                ops: prev.0.ops.push(
                    OpView::RemoveEntity { at: t, bucket, idx: i as nat, entity: olds[i] },
                ),
                marks: prev.0.marks,
                untracked: prev.0.untracked,
            },
            prev.1 + 1,
        )
    }
}

/// One bucket added to a diff: its pairs, then the entities the tool created,
/// then the ones it deleted.
pub open spec fn bucket_diff(
    acc: (DiffView, nat),
    bucket: Bucket,
    olds: Seq<EntityView>,
    news: Seq<EntityView>,
    m: Matching,
) -> (DiffView, nat) {
    let d1 = diff_pairs(acc, bucket, olds, news, pairs_of(m), m.pairs@.len() as int);
    let d2 = diff_added(d1, bucket, positions(m.only_new@), m.only_new@.len() as int);
    diff_removed(d2, bucket, olds, positions(m.only_old@), m.only_old@.len() as int)
}

/// What it takes to bring `working` back to `original`, given how the entities
/// and the hidden entities of the two were matched: the entities first, then
/// the hidden ones, with one token count across both, and the notes on changed
/// top-level sections last.
pub open spec fn map_diff(original: MapView, working: MapView, entities: Matching, hiddens: Matching) -> DiffView {
    let d1 = bucket_diff((empty_diff(), 0), Bucket::Entity, original.entities, working.entities, entities);
    let d2 = bucket_diff(d1, Bucket::Hidden, original.hiddens, working.hiddens, hiddens);
    DiffView {
        ops: d2.0.ops,
        marks: d2.0.marks,
        untracked: d2.0.untracked + section_notes(original, working),
    }
}

/// Moves `ops` onto the end of `dest`, stamped with `token`.
fn stamp_into(ops: Vec<Op>, token: &String, dest: &mut Vec<Op>)
    ensures
        ops_view(final(dest)@) == ops_view(old(dest)@) + stamp(ops_view(ops@), token@),
{
    let ghost all = ops@;
    let ghost start = ops_view(dest@);
    let n = ops.len();
    let mut rest = ops;
    let mut taken: usize = 0;
    while rest.len() > 0
        invariant
            n == all.len(),
            taken + rest@.len() == all.len(),
            rest@ == all.subrange(taken as int, all.len() as int),
            ops_view(dest@) == start + stamp(ops_view(all.subrange(0, taken as int)), token@),
        decreases rest.len(),
    {
        let mut op = rest.remove(0);
        op.set_token(token.as_str());
        let ghost prev = dest@;
        dest.push(op);
        proof {
            lemma_ops_view_push(prev, op);
            assert(ops_view(all.subrange(0, taken + 1)) =~= ops_view(all.subrange(0, taken as int)).push(
                all[taken as int]@,
            ));
            assert(stamp(ops_view(all.subrange(0, taken + 1)), token@) =~= stamp(
                ops_view(all.subrange(0, taken as int)),
                token@,
            ).push(all[taken as int]@.with_at(token@)));
            assert(rest@ =~= all.subrange(taken + 1, all.len() as int));
        }
        taken = taken + 1;
    }
    assert(all.subrange(0, taken as int) =~= all);
}

/// Adds one matched pair to `out`; `counter` counts the tokens handed out.
fn diff_one_pair(
    bucket: Bucket,
    before: &EntityModel,
    after: &EntityModel,
    pair: &Pair,
    counter: &mut u64,
    out: &mut Diff,
)
    requires
        *old(counter) < u32::MAX,
    ensures
        (final(out)@, *final(counter) as nat) == diff_pair(
            (old(out)@, *old(counter) as nat),
            bucket,
            before@,
            after@,
            pair.new as int,
            pair.confidence,
            pair.score@,
        ),
        *final(counter) <= *old(counter) + 1,
{
    let mut ops: Vec<Op> = Vec::new();
    diff_key_values(&before.key_values, &after.key_values, &mut ops);
    assert(ops_view(ops@) =~= keyvalue_diff(before@.key_values, after@.key_values));
    let old_conns = as_written(before.connections.as_ref());
    let new_conns = as_written(after.connections.as_ref());
    assert(conns_view(old_conns) == written(before@.connections));
    assert(conns_view(new_conns) == written(after@.connections));
    if !same_conns(&old_conns, &new_conns) {
        let op = Op::Connections { at: String::new(), old: old_conns, new: new_conns };
        proof {
            lemma_ops_view_push(ops@, op);
        }
        ops.push(op);
    }
    assert(ops_view(ops@) == pair_ops(before@, after@));
    let ghost u0 = names_view(out.untracked@);
    note_untracked_entity(before, after, &mut out.untracked);
    if ops.len() == 0 {
        return ;
    }
    if pair.confidence.rank() < 1 {
        let note = weak_note_text(before, &pair.score);
        let ghost u1 = names_view(out.untracked@);
        out.untracked.push(note);
        assert(names_view(out.untracked@) =~= u1.push(weak_note(before@, pair.score@)));
        return ;
    }
    *counter = *counter + 1;
    let token = decimal_string(*counter);
    stamp_into(ops, &token, &mut out.ops);
    let ghost m0 = marks_view(out.marks@);
    let mark = Mark { bucket, idx: pair.new, token };
    out.marks.push(mark);
    assert(marks_view(out.marks@) =~= m0.push(mark@));
}

/// Adds one bucket to `out`, given how its entities were matched.
fn diff_bucket(
    bucket: Bucket,
    original: &Vec<EntityModel>,
    working: &Vec<EntityModel>,
    m: &Matching,
    counter: &mut u64,
    out: &mut Diff,
)
    requires
        matching_fits(*m, original@.len(), working@.len()),
        *old(counter) + match_count(*m) <= u32::MAX,
    ensures
        (final(out)@, *final(counter) as nat) == bucket_diff(
            (old(out)@, *old(counter) as nat),
            bucket,
            entity_views(original@),
            entity_views(working@),
            *m,
        ),
        *final(counter) <= *old(counter) + match_count(*m),
{
    let ghost acc0 = (out@, *counter as nat);
    let ghost c0 = *counter;
    let ghost olds = entity_views(original@);
    let ghost news = entity_views(working@);
    let mut k: usize = 0;
    while k < m.pairs.len()
        invariant
            matching_fits(*m, original@.len(), working@.len()),
            c0 + match_count(*m) <= u32::MAX,
            olds == entity_views(original@),
            news == entity_views(working@),
            k <= m.pairs@.len(),
            *counter <= c0 + k,
            (out@, *counter as nat) == diff_pairs(acc0, bucket, olds, news, pairs_of(*m), k as int),
        decreases m.pairs.len() - k,
    {
        let pair = &m.pairs[k];
        assert(pairs_of(*m)[k as int] == (pair.old as int, pair.new as int, pair.confidence, pair.score@));
        diff_one_pair(bucket, &original[pair.old], &working[pair.new], pair, counter, out);
        k = k + 1;
    }
    let ghost acc1 = (out@, *counter as nat);
    let mut a: usize = 0;
    while a < m.only_new.len()
        invariant
            matching_fits(*m, original@.len(), working@.len()),
            c0 + match_count(*m) <= u32::MAX,
            a <= m.only_new@.len(),
            *counter <= c0 + m.pairs@.len() + a,
            (out@, *counter as nat) == diff_added(acc1, bucket, positions(m.only_new@), a as int),
        decreases m.only_new.len() - a,
    {
        let ghost prev = out@;
        *counter = *counter + 1;
        let token = decimal_string(*counter);
        let op = Op::AddEntity { at: token.clone(), bucket };
        let mark = Mark { bucket, idx: m.only_new[a], token };
        let ghost (o0, k0) = (out.ops@, out.marks@);
        out.ops.push(op);
        out.marks.push(mark);
        proof {
            lemma_ops_view_push(o0, op);
            assert(marks_view(out.marks@) =~= marks_view(k0).push(mark@));
        }
        a = a + 1;
    }
    let ghost acc2 = (out@, *counter as nat);
    let mut r: usize = 0;
    while r < m.only_old.len()
        invariant
            matching_fits(*m, original@.len(), working@.len()),
            c0 + match_count(*m) <= u32::MAX,
            olds == entity_views(original@),
            r <= m.only_old@.len(),
            *counter <= c0 + m.pairs@.len() + m.only_new@.len() + r,
            (out@, *counter as nat) == diff_removed(acc2, bucket, olds, positions(m.only_old@), r as int),
        decreases m.only_old.len() - r,
    {
        *counter = *counter + 1;
        let token = decimal_string(*counter);
        let idx = m.only_old[r];
        let entity = original[idx].duplicate();
        let op = Op::RemoveEntity { at: token, bucket, idx, entity: Box::new(entity) };
        let ghost o0 = out.ops@;
        out.ops.push(op);
        proof {
            lemma_ops_view_push(o0, op);
        }
        r = r + 1;
    }
}

/// Works out what it takes to bring `working` back to `original`, given how the
/// entities (`entities`) and hidden entities (`hiddens`) of the two were
/// matched: the inverse operations, where the tool's markers go, and notes on
/// the changes no operation can take back.
pub fn diff(original: &MapModel, working: &MapModel, entities: &Matching, hiddens: &Matching) -> (r: Diff)
    requires
        matching_fits(*entities, original.entities@.len(), working.entities@.len()),
        matching_fits(*hiddens, original.hiddens@.len(), working.hiddens@.len()),
        match_count(*entities) + match_count(*hiddens) <= u32::MAX,
    ensures
        r@ == map_diff(original@, working@, *entities, *hiddens),
{
    let mut out = Diff { ops: Vec::new(), marks: Vec::new(), untracked: Vec::new() };
    assert(ops_view(out.ops@) =~= Seq::<OpView>::empty());
    assert(marks_view(out.marks@) =~= Seq::<MarkView>::empty());
    assert(names_view(out.untracked@) =~= Seq::<Seq<char>>::empty());
    assert(out@ == empty_diff());
    let mut counter: u64 = 0;
    diff_bucket(Bucket::Entity, &original.entities, &working.entities, entities, &mut counter, &mut out);
    diff_bucket(Bucket::Hidden, &original.hiddens, &working.hiddens, hiddens, &mut counter, &mut out);
    let ghost u = names_view(out.untracked@);
    note_untracked(original, working, &mut out.untracked);
    out
}

} // verus!
