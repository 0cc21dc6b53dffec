//! Reversible map edits.
//!
//! Modify a map freely, then work out what changed and write enough beside the
//! file to undo exactly those changes later, and only those, so edits made by
//! anyone else in the meantime survive the rollback.
//!
//! Several tools can compile the same map, and none of them has to know about
//! the others. The name a tool gives [`LedgerOptions::new`] keeps them apart: it
//! picks the tool's section in the shared journal, its record in the map's
//! registry, and the keyvalue that marks the entities it touched. Rolling one
//! tool back leaves the rest exactly where they were.

pub mod diff;
pub mod edit;
pub mod error;
pub mod kv;
pub mod laws;
pub mod marker;
pub mod matching;
pub mod model;
pub mod ops;
pub mod rebuild;
pub mod reorder;
pub mod promises;
pub mod replay;
pub mod rollback;
pub mod roundtrip;
pub mod sidecar;
pub mod text;
pub mod undo;

pub use error::LedgerError;
pub use rollback::{is_marked, restore};

use vstd::prelude::*;

use crate::marker::slug_of;
use crate::text::owned;

verus! {

/// The default key of the tool registry in the `world` entity.
pub const DEFAULT_WORLD_KEY: &'static str = "vmf_ledger";

/// The prefix of the keyvalue that marks the entities a tool touched.
pub const MARKER_PREFIX: &'static str = "_vl_";

/// How a tool identifies itself to the ledger.
#[derive(Debug, Clone)]
pub struct LedgerOptions {
    /// The tool's identifier, stable across builds.
    pub name: String,
    /// The tool's build version.
    pub version: String,
    /// The key of the registry record in the `world` entity.
    pub world_key: String,
    /// The key stamped into the entities the tool touched.
    pub marker_key: String,
    /// The visgroup, if any, that the entities the tool creates go into.
    pub visgroup: Option<String>,
}

/// The characters of `_vl_`.
pub open spec fn marker_prefix() -> Seq<char> {
    seq!['_', 'v', 'l', '_']
}

/// The characters of `vmf_ledger`.
pub open spec fn default_world_key() -> Seq<char> {
    seq!['v', 'm', 'f', '_', 'l', 'e', 'd', 'g', 'e', 'r']
}

impl LedgerOptions {
    /// Options for the tool `name` at build `version`. The name is made safe for
    /// the registry (see [`marker::slug`]); the marker key is `_vl_` and that
    /// name; the registry goes under `vmf_ledger`.
    pub fn new(name: &str, version: String) -> (r: LedgerOptions)
        ensures
            r.name@ == slug_of(name@),
            r.version == version,
            r.marker_key@ == marker_prefix() + slug_of(name@),
            r.world_key@ == default_world_key(),
            r.visgroup is None,
    {
        let name = marker::slug(name);
        let mut marker_key = owned(MARKER_PREFIX);
        marker_key.append(name.as_str());
        let world_key = owned(DEFAULT_WORLD_KEY);
        proof {
            reveal_strlit("_vl_");
            reveal_strlit("vmf_ledger");
        }
        assert(world_key@ =~= default_world_key());
        assert(marker_key@ =~= marker_prefix() + slug_of(name@));
        LedgerOptions { marker_key, world_key, visgroup: None, name, version }
    }

    /// Overrides the entity marker key derived from the tool name.
    pub fn with_marker_key(self, key: String) -> (r: LedgerOptions)
        ensures
            r.marker_key == key,
            r.name == self.name,
            r.version == self.version,
            r.world_key == self.world_key,
            r.visgroup == self.visgroup,
    {
        LedgerOptions { marker_key: key, ..self }
    }

    /// Overrides the key of the registry in the `world` entity.
    pub fn with_world_key(self, key: String) -> (r: LedgerOptions)
        ensures
            r.world_key == key,
            r.name == self.name,
            r.version == self.version,
            r.marker_key == self.marker_key,
            r.visgroup == self.visgroup,
    {
        LedgerOptions { world_key: key, ..self }
    }

    /// Puts the entities the tool creates into the visgroup `name`.
    pub fn with_visgroup(self, name: String) -> (r: LedgerOptions)
        ensures
            r.visgroup == Some(name),
            r.name == self.name,
            r.version == self.version,
            r.marker_key == self.marker_key,
            r.world_key == self.world_key,
    {
        LedgerOptions { visgroup: Some(name), ..self }
    }
}

/// How a rollback treats edits made over the tool's own.
#[derive(Debug, Default, Clone, Copy)]
pub struct RestoreOptions {
    /// Roll back even where the map was edited where the tool had written,
    /// discarding those edits.
    pub force: bool,
}

} // verus!
