//! The registry of tools stamped into `world`.
//!
//! Several tools can compile the same map, so the mark is a list and not a single
//! record: each tool owns one entry, reads the others without touching them, and
//! drops only its own on rollback. One `world` keyvalue holds the lot, records
//! separated by `;`, each record `name version fingerprint`:
//!
//! ```text
//! "vmf_ledger" "pseudo-ents 0.1.0 a1b2c3d4e5f60718; cube-init 1.0 0011223344556677"
//! ```
//!
//! The order of the records is the order the tools stamped the map in.

use indexmap::IndexMap;
use vstd::prelude::*;

use crate::kv::{entries_of, has_key, key_pos, kv_get, kv_insert, kv_shift_remove, lookup, Entries};
use crate::text::{
    is_white_space, join, joined, owned, push_char, split, split_on, split_words, white_space,
    words,
};

verus! {

/// The separator between records.
pub const RECORD_SEP: char = ';';

/// One tool's record in `world`.
#[derive(Debug, Clone, PartialEq, Eq)]
pub struct Record {
    pub name: String,
    /// Informational only: what wrote this. Never part of the tool's identity,
    /// or a version bump would orphan every map compiled by the previous one.
    pub version: String,
    /// Ties the record to one exact journal section.
    pub fingerprint: String,
}

/// The view of a [`Record`].
pub struct RecordView {
    pub name: Seq<char>,
    pub version: Seq<char>,
    pub fingerprint: Seq<char>,
}

impl View for Record {
    type V = RecordView;

    open spec fn view(&self) -> RecordView {
        RecordView { name: self.name@, version: self.version@, fingerprint: self.fingerprint@ }
    }
}

/// The views of a list of records.
pub open spec fn records_view(s: Seq<Record>) -> Seq<RecordView> {
    s.map_values(|r: Record| r@)
}

/// How a record is written: `name fingerprint` without a version,
/// `name version fingerprint` with one.
pub open spec fn record_text(r: RecordView) -> Seq<char> {
    if r.version.len() == 0 {
        r.name + seq![' '] + r.fingerprint
    } else {
        r.name + seq![' '] + r.version + seq![' '] + r.fingerprint
    }
}

impl Record {
    /// A copy of this record.
    pub fn duplicate(&self) -> (r: Record)
        ensures
            r@ == self@,
    {
        Record {
            name: self.name.clone(),
            version: self.version.clone(),
            fingerprint: self.fingerprint.clone(),
        }
    }

    /// The record as the registry writes it.
    pub fn to_text(&self) -> (r: String)
        ensures
            r@ == record_text(self@),
    {
        let mut out = self.name.clone();
        push_char(&mut out, ' ');
        if !self.version.as_str().is_empty() {
            out.append(self.version.as_str());
            push_char(&mut out, ' ');
        }
        out.append(self.fingerprint.as_str());
        out
    }
}

/// A character that would break a record or a keyvalue name.
pub open spec fn unsafe_in_name(c: char) -> bool {
    is_white_space(c) || c == RECORD_SEP || c == '"'
}

/// The name `slug` makes of `name`: white space, `;` and `"` folded into `_`,
/// and `unnamed` for an empty name.
pub open spec fn slug_of(name: Seq<char>) -> Seq<char> {
    if name.len() == 0 {
        seq!['u', 'n', 'n', 'a', 'm', 'e', 'd']
    } else {
        name.map_values(|c: char| if unsafe_in_name(c) { '_' } else { c })
    }
}

/// A name that survives a trip through the registry and a keyvalue name.
///
/// White space separates the fields of a record and `;` separates the records,
/// so a tool called `My Tool` would silently corrupt both. Folding them into `_`
/// keeps that failure impossible rather than rare.
pub fn slug(name: &str) -> (r: String)
    ensures
        r@ == slug_of(name@),
{
    let n = name.unicode_len();
    let mut out = String::new();
    let mut i: usize = 0;
    while i < n
        invariant
            n == name@.len(),
            i <= n,
            out@ == name@.subrange(0, i as int).map_values(
                |c: char| if unsafe_in_name(c) { '_' } else { c },
            ),
        decreases n - i,
    {
        let c = name.get_char(i);
        if white_space(c) || c == RECORD_SEP || c == '"' {
            push_char(&mut out, '_');
        } else {
            push_char(&mut out, c);
        }
        assert(name@.subrange(0, i + 1) =~= name@.subrange(0, i as int).push(c));
        assert(out@ =~= name@.subrange(0, i + 1).map_values(
            |c: char| if unsafe_in_name(c) { '_' } else { c },
        ));
        i = i + 1;
    }
    if n == 0 {
        let r = owned("unnamed");
        proof {
            reveal_strlit("unnamed");
        }
        assert(r@ =~= seq!['u', 'n', 'n', 'a', 'm', 'e', 'd']);
        return r;
    }
    assert(name@.subrange(0, n as int) =~= name@);
    out
}

/// The record `text` holds, read from the right: the fingerprint is the last
/// word, the version the one before it (when there are three or more), and the
/// name everything before that, its words joined by single spaces.
pub open spec fn parsed(text: Seq<char>) -> Option<RecordView> {
    let w = words(text);
    if w.len() < 2 {
        None
    } else if w.len() == 2 {
        Some(RecordView { name: w[0], version: Seq::empty(), fingerprint: w[1] })
    } else {
        Some(
            RecordView {
                name: joined(w.subrange(0, w.len() - 2), seq![' ']),
                version: w[w.len() - 2],
                fingerprint: w[w.len() - 1],
            },
        )
    }
}

/// A record is `name version fingerprint`, and the fingerprint is always last.
///
/// Read from the right, so a name with spaces in it (written by hand, or by an
/// older build) still resolves to the right fingerprint.
pub fn parse_record(text: &str) -> (r: Option<Record>)
    ensures
        r is None <==> parsed(text@) is None,
        r matches Some(rec) ==> parsed(text@) == Some(rec@),
{
    let fields = split_words(text);
    let ghost w = words(text@);
    let n = fields.len();
    if n < 2 {
        None
    } else if n == 2 {
        assert(fields@.map_values(|x: String| x@)[0] == fields@[0]@);
        assert(fields@.map_values(|x: String| x@)[1] == fields@[1]@);
        Some(
            Record {
                name: fields[0].clone(),
                version: String::new(),
                fingerprint: fields[1].clone(),
            },
        )
    } else {
        let name = join(&fields, n - 2, " ");
        proof {
            reveal_strlit(" ");
        }
        assert(" "@ =~= seq![' ']);
        assert(fields@.map_values(|x: String| x@).subrange(0, n - 2) == w.subrange(0, n - 2));
        assert(fields@.map_values(|x: String| x@)[n - 2] == fields@[n - 2]@);
        assert(fields@.map_values(|x: String| x@)[n - 1] == fields@[n - 1]@);
        Some(
            Record {
                name,
                version: fields[n - 2].clone(),
                fingerprint: fields[n - 1].clone(),
            },
        )
    }
}

/// The records that the pieces hold, unreadable pieces skipped.
pub open spec fn parsed_all(pieces: Seq<Seq<char>>) -> Seq<RecordView>
    decreases pieces.len(),
{
    if pieces.len() == 0 {
        Seq::empty()
    } else {
        let prev = parsed_all(pieces.drop_last());
        match parsed(pieces.last()) {
            Some(r) => prev.push(r),
            None => prev,
        }
    }
}

/// The registry that the keyvalue `key` of `world` holds: nothing where the key
/// is absent; otherwise the records between the separators, an unreadable one
/// dropped.
pub open spec fn registry(world: Entries, key: Seq<char>) -> Seq<RecordView> {
    match lookup(world, key) {
        None => Seq::empty(),
        Some(v) => parsed_all(split_on(v, RECORD_SEP)),
    }
}

/// Reads the registry. A record that does not parse is dropped rather than
/// fought over: what matters is finding one's own, and a record that cannot be
/// read is nobody's.
pub fn read(world: &IndexMap<String, String>, key: &str) -> (r: Vec<Record>)
    ensures
        records_view(r@) == registry(entries_of(*world), key@),
{
    let value = match kv_get(world, key) {
        None => {
            let r: Vec<Record> = Vec::new();
            assert(records_view(r@) =~= Seq::<RecordView>::empty());
            return r;
        },
        Some(v) => v,
    };
    let pieces = split(value.as_str(), RECORD_SEP);
    let ghost ps = pieces@.map_values(|x: String| x@);
    let mut out: Vec<Record> = Vec::new();
    let mut i: usize = 0;
    while i < pieces.len()
        invariant
            ps == pieces@.map_values(|x: String| x@),
            i <= pieces.len(),
            records_view(out@) == parsed_all(ps.subrange(0, i as int)),
        decreases pieces.len() - i,
    {
        assert(ps.subrange(0, i + 1).drop_last() =~= ps.subrange(0, i as int));
        assert(ps.subrange(0, i + 1).last() == pieces@[i as int]@);
        let ghost prev = out@;
        match parse_record(pieces[i].as_str()) {
            Some(rec) => {
                out.push(rec);
                assert(records_view(out@) =~= records_view(prev).push(rec@));
            },
            None => {},
        }
        i = i + 1;
    }
    assert(ps.subrange(0, pieces.len() as int) =~= ps);
    out
}

/// The registry written out: the records' texts joined by `; `.
pub open spec fn registry_text(marks: Seq<RecordView>) -> Seq<char> {
    joined(marks.map_values(|r: RecordView| record_text(r)), seq![';', ' '])
}

/// `world` with the registry `marks` written under `key`: the key dropped once
/// nobody is left, otherwise set to the records' text, an existing key keeping
/// its place.
pub open spec fn with_registry(world: Entries, key: Seq<char>, marks: Seq<RecordView>) -> Entries {
    if marks.len() == 0 {
        if has_key(world, key) {
            world.remove(key_pos(world, key))
        } else {
            world
        }
    } else if has_key(world, key) {
        world.update(key_pos(world, key), (key, registry_text(marks)))
    } else {
        world.push((key, registry_text(marks)))
    }
}

/// Writes the registry back, dropping the key entirely once nobody is left. An
/// existing key keeps its place in `world`, so re-stamping does not move the
/// line around and show up as an edit.
pub fn write(world: &mut IndexMap<String, String>, key: &str, marks: &[Record])
    ensures
        entries_of(*final(world)) == with_registry(
            entries_of(*old(world)),
            key@,
            records_view(marks@),
        ),
{
    if marks.len() == 0 {
        kv_shift_remove(world, key);
        return ;
    }
    let mut texts: Vec<String> = Vec::new();
    let mut i: usize = 0;
    while i < marks.len()
        invariant
            i <= marks@.len(),
            texts@.len() == i,
            forall|j: int| 0 <= j < i ==> #[trigger] texts@[j]@ == record_text(marks@[j]@),
        decreases marks.len() - i,
    {
        texts.push(marks[i].to_text());
        i = i + 1;
    }
    let text = join(&texts, texts.len(), "; ");
    proof {
        reveal_strlit("; ");
        assert("; "@ =~= seq![';', ' ']);
        assert(texts@.map_values(|x: String| x@).subrange(0, texts@.len() as int) =~= records_view(
            marks@,
        ).map_values(|r: RecordView| record_text(r)));
    }
    kv_insert(world, owned(key), text);
}

/// The position of the first record named `name`, if any.
pub open spec fn first_named(s: Seq<RecordView>, name: Seq<char>) -> Option<int> {
    if exists|i: int| 0 <= i < s.len() && s[i].name == name {
        Some(
            choose|i: int|
                0 <= i < s.len() && s[i].name == name && forall|j: int|
                    0 <= j < i ==> s[j].name != name,
        )
    } else {
        None
    }
}

pub(crate) proof fn lemma_first_named(s: Seq<RecordView>, name: Seq<char>, i: int)
    requires
        0 <= i < s.len(),
        s[i].name == name,
        forall|j: int| 0 <= j < i ==> s[j].name != name,
    ensures
        first_named(s, name) == Some(i),
{
    let k = choose|k: int|
        0 <= k < s.len() && s[k].name == name && forall|j: int| 0 <= j < k ==> s[j].name != name;
    assert(k == i) by {
        if k < i {
            assert(s[k].name != name);
        }
        if i < k {
            assert(s[i].name != name);
        }
    }
}

/// The first record named `name`.
pub fn find<'a>(marks: &'a [Record], name: &str) -> (r: Option<&'a Record>)
    ensures
        r is None <==> first_named(records_view(marks@), name@) is None,
        r matches Some(rec) ==> first_named(records_view(marks@), name@) matches Some(i) && rec@
            == records_view(marks@)[i],
{
    let ghost s = records_view(marks@);
    let mut i: usize = 0;
    while i < marks.len()
        invariant
            s == records_view(marks@),
            i <= marks@.len(),
            forall|j: int| 0 <= j < i ==> s[j].name != name@,
        decreases marks.len() - i,
    {
        assert(s[i as int] == marks@[i as int]@);
        if str_eq(marks[i].name.as_str(), name) {
            proof {
                lemma_first_named(s, name@, i as int);
            }
            return Some(&marks[i]);
        }
        i = i + 1;
    }
    None
}

/// `str` equality.
#[verifier::external_body]
pub(crate) fn str_eq(a: &str, b: &str) -> (r: bool)
    ensures
        r == (a@ == b@),
{
    a == b
}

/// Adds the record, or replaces the first one of the same name: the one this
/// tool left last time.
pub fn upsert(marks: &mut Vec<Record>, mark: Record)
    ensures
        first_named(records_view(old(marks)@), mark.name@) matches Some(i) ==> records_view(
            final(marks)@,
        ) == records_view(old(marks)@).update(i, mark@),
        first_named(records_view(old(marks)@), mark.name@) is None ==> records_view(
            final(marks)@,
        ) == records_view(old(marks)@).push(mark@),
{
    let ghost s = records_view(marks@);
    let mut i: usize = 0;
    while i < marks.len()
        invariant
            s == records_view(old(marks)@),
            marks@ == old(marks)@,
            i <= marks@.len(),
            forall|j: int| 0 <= j < i ==> s[j].name != mark.name@,
        decreases marks.len() - i,
    {
        assert(s[i as int] == marks@[i as int]@);
        if marks[i].name == mark.name {
            proof {
                lemma_first_named(s, mark.name@, i as int);
            }
            let ghost m = mark@;
            marks.set(i, mark);
            assert(records_view(marks@) =~= s.update(i as int, m));
            return ;
        }
        i = i + 1;
    }
    let ghost m = mark@;
    marks.push(mark);
    assert(records_view(marks@) =~= s.push(m));
}

/// The records not named `name`, in order.
pub open spec fn without_named(s: Seq<RecordView>, name: Seq<char>) -> Seq<RecordView>
    decreases s.len(),
{
    if s.len() == 0 {
        s
    } else if s.last().name == name {
        without_named(s.drop_last(), name)
    } else {
        without_named(s.drop_last(), name).push(s.last())
    }
}

/// Drops every record named `name`.
pub fn remove(marks: &mut Vec<Record>, name: &str)
    ensures
        records_view(final(marks)@) == without_named(records_view(old(marks)@), name@),
{
    let ghost s = records_view(marks@);
    let mut kept: Vec<Record> = Vec::new();
    let mut i: usize = 0;
    while i < marks.len()
        invariant
            s == records_view(old(marks)@),
            marks@ == old(marks)@,
            i <= marks@.len(),
            records_view(kept@) == without_named(s.subrange(0, i as int), name@),
        decreases marks.len() - i,
    {
        assert(s.subrange(0, i + 1).drop_last() =~= s.subrange(0, i as int));
        assert(s.subrange(0, i + 1).last() == marks@[i as int]@);
        if !str_eq(marks[i].name.as_str(), name) {
            let ghost prev = kept@;
            kept.push(marks[i].duplicate());
            assert(records_view(kept@) =~= records_view(prev).push(marks@[i as int]@));
        }
        i = i + 1;
    }
    assert(s.subrange(0, marks@.len() as int) =~= s);
    *marks = kept;
}

} // verus!
