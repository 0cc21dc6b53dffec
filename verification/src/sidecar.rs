//! The journal that sits beside a map: one section per tool.
//!
//! Several tools share a single journal file. Each section carries the tool's
//! operations and is tied to the map by its fingerprint: a hash of the section as
//! the file writes it, so one tool writing its section does not invalidate the
//! others' marks. Reading and writing the file is left to the caller; the
//! library owns the sections and the fingerprint.

use vstd::prelude::*;
use vstd::string::StringSliceAdditionalSpecFns;

use crate::error::LedgerError;
use crate::ops::{ops_view, Op, OpView, VisgroupOp};
use crate::text::{hex16, hex_digits, owned};

verus! {

/// The extension of a journal file.
pub const EXTENSION: &'static str = "vdif";

/// The journal format this build writes.
pub const FORMAT_VERSION: u32 = 2;

/// The rollback operations and metadata of one tool.
#[derive(Debug)]
pub struct Journal {
    /// The tool's stable identity, matching its record in the map's registry.
    pub name: String,
    /// Informational: which build wrote this.
    pub version: String,
    /// The per-entity marker key, so a rollback needs nothing but this section.
    pub marker_key: String,
    pub ops: Vec<Op>,
    pub visgroups: Vec<VisgroupOp>,
    /// Set only when the section was lifted out of a single-tool journal: the
    /// fingerprint that journal had, which the map's record still carries.
    pub legacy_fingerprint: Option<String>,
}

/// The offset basis of 64-bit FNV-1a.
pub const FNV_OFFSET: u64 = 0xcbf2_9ce4_8422_2325;

/// The prime of 64-bit FNV-1a.
pub const FNV_PRIME: u64 = 0x0000_0100_0000_01b3;

/// 64-bit FNV-1a of `bytes`: for each byte, xor it in, then multiply by the
/// prime, wrapping.
pub open spec fn fnv1a_spec(bytes: Seq<u8>) -> u64
    decreases bytes.len(),
{
    if bytes.len() == 0 {
        FNV_OFFSET
    } else {
        (fnv1a_spec(bytes.drop_last()) ^ (bytes.last() as u64)).wrapping_mul(FNV_PRIME)
    }
}

/// 64-bit FNV-1a over the UTF-8 bytes of `data`: deterministic across compiler
/// releases, unlike the standard hasher.
pub fn fnv1a(data: &str) -> (r: u64)
    ensures
        r == fnv1a_spec(data.spec_bytes()),
{
    let bytes = data.as_bytes();
    let mut hash: u64 = FNV_OFFSET;
    let mut i: usize = 0;
    while i < bytes.len()
        invariant
            bytes@ == data.spec_bytes(),
            i <= bytes@.len(),
            hash == fnv1a_spec(bytes@.subrange(0, i as int)),
        decreases bytes.len() - i,
    {
        assert(bytes@.subrange(0, i + 1).drop_last() =~= bytes@.subrange(0, i as int));
        hash = hash ^ (bytes[i] as u64);
        hash = hash.wrapping_mul(FNV_PRIME);
        i = i + 1;
    }
    assert(bytes@.subrange(0, bytes@.len() as int) =~= bytes@);
    hash
}

/// The fingerprint of a section whose file form is `json`: its FNV-1a hash as
/// sixteen hexadecimal digits.
pub open spec fn fingerprint_text(json: Seq<u8>) -> Seq<char> {
    hex_digits(fnv1a_spec(json) as nat, 16)
}

/// The fingerprint of a journal text.
pub fn fingerprint_of(json: &str) -> (r: String)
    ensures
        r@ == fingerprint_text(json.spec_bytes()),
{
    hex16(fnv1a(json))
}

impl Journal {
    /// A fresh section.
    pub fn new(
        name: String,
        version: String,
        marker_key: String,
        ops: Vec<Op>,
        visgroups: Vec<VisgroupOp>,
    ) -> (r: Journal)
        ensures
            r.name == name,
            r.version == version,
            r.marker_key == marker_key,
            r.ops == ops,
            r.visgroups == visgroups,
            r.legacy() is None,
    {
        Journal { name, version, marker_key, ops, visgroups, legacy_fingerprint: None }
    }

    /// The fingerprint carried over from a single-tool journal, if any.
    pub open spec fn legacy(&self) -> Option<String> {
        self.legacy_fingerprint
    }

    /// Whether the tool recorded nothing at all.
    pub fn is_empty(&self) -> (r: bool)
        ensures
            r == (self.ops@.len() == 0 && self.visgroups@.len() == 0),
    {
        self.ops.len() == 0 && self.visgroups.len() == 0
    }

    /// The fingerprint identifying this section, given the section as the journal
    /// file writes it. Taken over this tool's section alone, so the other tools'
    /// sections in the shared file do not invalidate its mark. A section lifted
    /// from a single-tool journal keeps the fingerprint that journal had.
    pub fn fingerprint_with(&self, json: &str) -> (r: String)
        ensures
            r@ == match self.legacy() {
                Some(carried) => carried@,
                None => fingerprint_text(json.spec_bytes()),
            },
    {
        match &self.legacy_fingerprint {
            Some(carried) => carried.clone(),
            None => fingerprint_of(json),
        }
    }
}

/// A whole journal file: its format version and the tools' sections, in the
/// order they were first written.
#[derive(Debug)]
pub struct Sidecar {
    pub version: u32,
    pub tools: Vec<Journal>,
}

/// The position of the first section named `name`, if any.
pub open spec fn section_of(tools: Seq<Journal>, name: Seq<char>) -> Option<int> {
    if exists|i: int| 0 <= i < tools.len() && tools[i].name@ == name {
        Some(
            choose|i: int|
                0 <= i < tools.len() && tools[i].name@ == name && forall|j: int|
                    0 <= j < i ==> tools[j].name@ != name,
        )
    } else {
        None
    }
}

pub(crate) proof fn lemma_section_of(tools: Seq<Journal>, name: Seq<char>, i: int)
    requires
        0 <= i < tools.len(),
        tools[i].name@ == name,
        forall|j: int| 0 <= j < i ==> tools[j].name@ != name,
    ensures
        section_of(tools, name) == Some(i),
{
    let k = choose|k: int|
        0 <= k < tools.len() && tools[k].name@ == name && forall|j: int|
            0 <= j < k ==> tools[j].name@ != name;
    assert(k == i) by {
        if k < i {
            assert(tools[k].name@ != name);
        }
        if i < k {
            assert(tools[i].name@ != name);
        }
    }
}

fn position_of(tools: &Vec<Journal>, name: &str) -> (r: Option<usize>)
    ensures
        r matches Some(i) ==> i < tools@.len() && section_of(tools@, name@) == Some(i as int),
        r is None ==> section_of(tools@, name@) is None,
{
    let mut i: usize = 0;
    while i < tools.len()
        invariant
            i <= tools@.len(),
            forall|j: int| 0 <= j < i ==> tools@[j].name@ != name@,
        decreases tools.len() - i,
    {
        if crate::marker::str_eq(tools[i].name.as_str(), name) {
            proof {
                lemma_section_of(tools@, name@, i as int);
            }
            return Some(i);
        }
        i = i + 1;
    }
    None
}

impl Sidecar {
    /// An empty journal file of the current format.
    pub fn empty() -> (r: Sidecar)
        ensures
            r.version == FORMAT_VERSION,
            r.tools@.len() == 0,
    {
        Sidecar { version: FORMAT_VERSION, tools: Vec::new() }
    }

    /// The section of the tool called `name`.
    pub fn get(&self, name: &str) -> (r: Option<&Journal>)
        ensures
            r is None <==> section_of(self.tools@, name@) is None,
            r matches Some(j) ==> section_of(self.tools@, name@) matches Some(i) && *j
                == self.tools@[i],
    {
        match position_of(&self.tools, name) {
            Some(i) => Some(&self.tools[i]),
            None => None,
        }
    }

    /// Takes out the section of the tool called `name`.
    pub fn take(self, name: &str) -> (r: Option<Journal>)
        ensures
            r is None <==> section_of(self.tools@, name@) is None,
            r matches Some(j) ==> section_of(self.tools@, name@) matches Some(i) && j
                == self.tools@[i],
    {
        let ghost tools = self.tools@;
        match position_of(&self.tools, name) {
            Some(i) => {
                let mut all = self.tools;
                Some(all.swap_remove(i))
            },
            None => None,
        }
    }

    /// Writes a section in: it replaces the first one of the same tool, or goes
    /// last. The other tools' sections are left as they are.
    pub fn upsert(&mut self, journal: Journal)
        ensures
            final(self).version == old(self).version,
            section_of(old(self).tools@, journal.name@) matches Some(i) ==> final(self).tools@
                == old(self).tools@.update(i, journal),
            section_of(old(self).tools@, journal.name@) is None ==> final(self).tools@ == old(
                self,
            ).tools@.push(journal),
    {
        match position_of(&self.tools, journal.name.as_str()) {
            Some(i) => {
                self.tools.set(i, journal);
            },
            None => {
                self.tools.push(journal);
            },
        }
    }
}

/// The single-tool journal format: one section for one tool whose name and
/// version sit in one field, separated by the last space.
#[derive(Debug)]
pub struct LegacyJournal {
    pub version: u32,
    pub tool: String,
    pub marker_key: String,
    pub ops: Vec<Op>,
}

/// The position of the last space in `s`, if any.
pub open spec fn last_space(s: Seq<char>) -> Option<int> {
    if exists|i: int| 0 <= i < s.len() && s[i] == ' ' {
        Some(
            choose|i: int|
                0 <= i < s.len() && s[i] == ' ' && forall|j: int| i < j < s.len() ==> s[j] != ' ',
        )
    } else {
        None
    }
}

/// The name a single-tool journal gives its tool: everything before the last
/// space, or the whole field.
pub open spec fn legacy_name(tool: Seq<char>) -> Seq<char> {
    match last_space(tool) {
        Some(i) => tool.subrange(0, i),
        None => tool,
    }
}

/// The version a single-tool journal gives its tool: everything after the last
/// space, or nothing.
pub open spec fn legacy_version(tool: Seq<char>) -> Seq<char> {
    match last_space(tool) {
        Some(i) => tool.subrange(i + 1, tool.len() as int),
        None => Seq::empty(),
    }
}

impl LegacyJournal {
    /// Lifts the journal into a section of the current format, given the
    /// journal as its file holds it. The section keeps the fingerprint taken over
    /// that file, so the marks left on maps by the old format stay valid.
    pub fn lift(self, json: &str) -> (r: Journal)
        ensures
            r.name@ == legacy_name(self.tool@),
            r.version@ == legacy_version(self.tool@),
            r.marker_key == self.marker_key,
            r.ops == self.ops,
            r.visgroups@.len() == 0,
            r.legacy() matches Some(f) && f@ == fingerprint_text(json.spec_bytes()),
    {
        let carried = fingerprint_of(json);
        let n = self.tool.as_str().unicode_len();
        let mut i: usize = n;
        while i > 0 && self.tool.as_str().get_char(i - 1) != ' '
            invariant
                i <= n,
                n == self.tool@.len(),
                forall|j: int| i <= j < n ==> self.tool@[j] != ' ',
            decreases i,
        {
            i = i - 1;
        }
        let (name, version) = if i == 0 {
            proof {
                assert(forall|j: int| 0 <= j < n ==> self.tool@[j] != ' ');
            }
            (self.tool.clone(), String::new())
        } else {
            proof {
                let c = choose|c: int|
                    0 <= c < n && self.tool@[c] == ' ' && forall|j: int|
                        c < j < n ==> self.tool@[j] != ' ';
                assert(self.tool@[i - 1] == ' ');
                assert(c == i - 1) by {
                    if c < i - 1 {
                        assert(self.tool@[i - 1] != ' ');
                    }
                }
            }
            (
                owned(self.tool.as_str().substring_char(0, i - 1)),
                owned(self.tool.as_str().substring_char(i, n)),
            )
        };
        Journal {
            name,
            version,
            marker_key: self.marker_key,
            ops: self.ops,
            visgroups: Vec::new(),
            legacy_fingerprint: Some(carried),
        }
    }
}

/// How a journal file of format `version` is read: the single-tool format is
/// lifted, the current one is read as it is.
pub enum FormatAction {
    Lift,
    Read,
}

/// What to do with a journal file that says it has format `version`: any
/// format but the single-tool one and the current one is refused.
pub fn format_action(version: u32) -> (r: Result<FormatAction, LedgerError>)
    ensures
        version == 1 <==> r matches Ok(FormatAction::Lift),
        version == FORMAT_VERSION <==> r matches Ok(FormatAction::Read),
        version != 1 && version != FORMAT_VERSION <==> (r matches Err(
            LedgerError::SidecarVersion { found, expected },
        ) && found == version && expected == FORMAT_VERSION),
{
    if version == 1 {
        Ok(FormatAction::Lift)
    } else if version == FORMAT_VERSION {
        Ok(FormatAction::Read)
    } else {
        Err(LedgerError::SidecarVersion { found: version, expected: FORMAT_VERSION })
    }
}

/// The journal file a section is written into, given how reading the file at
/// `path` went: the file as read; a fresh one where there was no file
/// (`missing`); and otherwise a refusal, since overwriting a file that does not
/// read back as a journal could destroy another tool's rollback data. `reason`
/// says why the read failed.
pub fn sidecar_for_write(read: Result<Sidecar, LedgerError>, missing: bool, path: String, reason: String) -> (r: Result<
    Sidecar,
    LedgerError,
>)
    ensures
        match read {
            Ok(s) => r == Ok::<Sidecar, LedgerError>(s),
            Err(_) => if missing {
                r matches Ok(s) && s.version == FORMAT_VERSION && s.tools@.len() == 0
            } else {
                r matches Err(LedgerError::SidecarClobber { path: p, reason: why }) && p == path
                    && why == reason
            },
        },
{
    match read {
        Ok(s) => Ok(s),
        Err(_) => if missing {
            Ok(Sidecar::empty())
        } else {
            Err(LedgerError::SidecarClobber { path, reason })
        },
    }
}

} // verus!
