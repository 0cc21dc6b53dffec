//! The parts of a map that the ledger reads and writes, held as plain values.
//!
//! A map is parsed and written by `source_vmf`. What the ledger's logic looks at
//! (entity keyvalues, connections, visgroup memberships, the `world`
//! keyvalues) is kept here as plain data; everything else rides along untouched
//! in the crate's own types, which this library treats as opaque.

use indexmap::IndexMap;
use source_vmf::prelude::{Entity, VmfFile};
use vstd::prelude::*;

use crate::kv::{entries_of, kv_clone, Entries};

verus! {

/// Declares `source_vmf::Entity`. In an [`EntityModel`] it holds what the
/// ledger does not model: solids, the editor block without its visgroup list,
/// unmodelled blocks.
#[verifier::external_type_specification]
#[verifier::external_body]
pub struct ExEntity(Entity);

/// Declares `source_vmf::VmfFile`. In a [`MapModel`] it holds everything but the
/// entity lists and the `world` keyvalues.
#[verifier::external_type_specification]
#[verifier::external_body]
pub struct ExVmfFile(VmfFile);

/// One output wired to an input, as the `connections` block of an entity
/// writes it. `delay` is the delay as it is written in the file.
#[derive(Debug)]
pub struct Connection {
    pub output: String,
    pub target: String,
    pub input: String,
    pub params: String,
    pub delay: String,
    pub fire_limit: i32,
}

/// The view of a [`Connection`].
pub struct ConnectionView {
    pub output: Seq<char>,
    pub target: Seq<char>,
    pub input: Seq<char>,
    pub params: Seq<char>,
    pub delay: Seq<char>,
    pub fire_limit: i32,
}

impl View for Connection {
    type V = ConnectionView;

    open spec fn view(&self) -> ConnectionView {
        ConnectionView {
            output: self.output@,
            target: self.target@,
            input: self.input@,
            params: self.params@,
            delay: self.delay@,
            fire_limit: self.fire_limit,
        }
    }
}

/// The view of a list of connections.
pub open spec fn conns_view(c: Option<Vec<Connection>>) -> Option<Seq<ConnectionView>> {
    match c {
        Some(v) => Some(v@.map_values(|x: Connection| x@)),
        None => None,
    }
}

impl Connection {
    /// A copy of this connection.
    pub fn duplicate(&self) -> (r: Connection)
        ensures
            r@ == self@,
    {
        Connection {
            output: self.output.clone(),
            target: self.target.clone(),
            input: self.input.clone(),
            params: self.params.clone(),
            delay: self.delay.clone(),
            fire_limit: self.fire_limit,
        }
    }

    /// Whether two connections are written the same way.
    pub fn same_as(&self, other: &Connection) -> (r: bool)
        ensures
            r == (self@ == other@),
    {
        self.output == other.output && self.target == other.target && self.input == other.input
            && self.params == other.params && self.delay == other.delay && self.fire_limit
            == other.fire_limit
    }
}

/// A copy of a connection list.
pub fn copy_conns(c: &Option<Vec<Connection>>) -> (r: Option<Vec<Connection>>)
    ensures
        conns_view(r) == conns_view(*c),
{
    match c {
        None => None,
        Some(list) => {
            let mut out: Vec<Connection> = Vec::new();
            let mut i: usize = 0;
            while i < list.len()
                invariant
                    i <= list.len(),
                    out@.len() == i,
                    forall|j: int| 0 <= j < i ==> out@[j]@ == list@[j]@,
                decreases list.len() - i,
            {
                out.push(list[i].duplicate());
                i = i + 1;
            }
            assert(out@.map_values(|x: Connection| x@) =~= list@.map_values(|x: Connection| x@));
            Some(out)
        },
    }
}

/// Whether two connection lists are the same.
pub fn same_conns(a: &Option<Vec<Connection>>, b: &Option<Vec<Connection>>) -> (r: bool)
    ensures
        r == (conns_view(*a) == conns_view(*b)),
{
    match (a, b) {
        (None, None) => true,
        (Some(x), Some(y)) => {
            if x.len() != y.len() {
                assert(x@.map_values(|c: Connection| c@).len() != y@.map_values(
                    |c: Connection| c@,
                ).len());
                return false;
            }
            let mut i: usize = 0;
            while i < x.len()
                invariant
                    x.len() == y.len(),
                    conns_view(*a) == Some(x@.map_values(|c: Connection| c@)),
                    conns_view(*b) == Some(y@.map_values(|c: Connection| c@)),
                    i <= x.len(),
                    forall|j: int| 0 <= j < i ==> x@[j]@ == y@[j]@,
                decreases x.len() - i,
            {
                if !x[i].same_as(&y[i]) {
                    let ghost sx = x@.map_values(|c: Connection| c@);
                    let ghost sy = y@.map_values(|c: Connection| c@);
                    assert(sx[i as int] != sy[i as int]);
                    assert(sx != sy);
                    assert(conns_view(*a) == Some(sx));
                    assert(conns_view(*b) == Some(sy));
                    return false;
                }
                i = i + 1;
            }
            assert(x@.map_values(|c: Connection| c@) =~= y@.map_values(|c: Connection| c@));
            true
        },
        _ => false,
    }
}

/// An entity: its keyvalues, connections and visgroup memberships as plain
/// values, and the rest of it as `source_vmf` holds it.
#[derive(Debug)]
pub struct EntityModel {
    pub key_values: IndexMap<String, String>,
    pub connections: Option<Vec<Connection>>,
    pub visgroup_ids: Vec<i32>,
    pub body: Entity,
}

/// The view of an [`EntityModel`].
pub struct EntityView {
    pub key_values: Entries,
    pub connections: Option<Seq<ConnectionView>>,
    pub visgroup_ids: Seq<i32>,
    pub body: Entity,
}

impl View for EntityModel {
    type V = EntityView;

    open spec fn view(&self) -> EntityView {
        EntityView {
            key_values: entries_of(self.key_values),
            connections: conns_view(self.connections),
            visgroup_ids: self.visgroup_ids@,
            body: self.body,
        }
    }
}

/// `Entity::clone`, derived by `source_vmf`: a field-by-field copy.
#[verifier::external_body]
fn clone_body(e: &Entity) -> (r: Entity)
    ensures
        r == *e,
{
    e.clone()
}

impl EntityModel {
    /// A copy of this entity.
    pub fn duplicate(&self) -> (r: EntityModel)
        ensures
            r@ == self@,
    {
        EntityModel {
            key_values: kv_clone(&self.key_values),
            connections: copy_conns(&self.connections),
            visgroup_ids: self.visgroup_ids.clone(),
            body: clone_body(&self.body),
        }
    }
}

/// A map: the two entity lists and the `world` keyvalues as the ledger models
/// them, the visgroup memberships of the world's brushes, and the rest of the
/// file as `source_vmf` holds it.
#[derive(Debug)]
pub struct MapModel {
    pub world_key_values: IndexMap<String, String>,
    pub entities: Vec<EntityModel>,
    pub hiddens: Vec<EntityModel>,
    /// The visgroup lists of the world's brushes, visible and hidden.
    pub solid_visgroups: Vec<Vec<i32>>,
    pub rest: VmfFile,
}

/// The views of a list of entities.
pub open spec fn entity_views(s: Seq<EntityModel>) -> Seq<EntityView> {
    s.map_values(|e: EntityModel| e@)
}

/// The view of a [`MapModel`].
pub struct MapView {
    pub world: Entries,
    pub entities: Seq<EntityView>,
    pub hiddens: Seq<EntityView>,
    pub solid_visgroups: Seq<Seq<i32>>,
    pub rest: VmfFile,
}

impl View for MapModel {
    type V = MapView;

    open spec fn view(&self) -> MapView {
        MapView {
            world: entries_of(self.world_key_values),
            entities: entity_views(self.entities@),
            hiddens: entity_views(self.hiddens@),
            solid_visgroups: self.solid_visgroups@.map_values(|v: Vec<i32>| v@),
            rest: self.rest,
        }
    }
}

/// `VmfFile::clone`, derived by `source_vmf`: a field-by-field copy.
#[verifier::external_body]
fn clone_file(f: &VmfFile) -> (r: VmfFile)
    ensures
        r == *f,
{
    f.clone()
}

/// A copy of a list of entities.
pub fn copy_entities(list: &Vec<EntityModel>) -> (r: Vec<EntityModel>)
    ensures
        entity_views(r@) == entity_views(list@),
{
    let mut out: Vec<EntityModel> = Vec::new();
    let mut i: usize = 0;
    while i < list.len()
        invariant
            i <= list@.len(),
            out@.len() == i,
            forall|j: int| 0 <= j < i ==> (#[trigger] out@[j])@ == list@[j]@,
        decreases list.len() - i,
    {
        out.push(list[i].duplicate());
        i = i + 1;
    }
    assert(entity_views(out@) =~= entity_views(list@));
    out
}

/// A copy of a list of id lists.
pub fn copy_id_lists(v: &Vec<Vec<i32>>) -> (r: Vec<Vec<i32>>)
    ensures
        r@.map_values(|x: Vec<i32>| x@) == v@.map_values(|x: Vec<i32>| x@),
{
    let mut out: Vec<Vec<i32>> = Vec::new();
    let mut i: usize = 0;
    while i < v.len()
        invariant
            i <= v@.len(),
            out@.len() == i,
            forall|j: int| 0 <= j < i ==> (#[trigger] out@[j])@ == v@[j]@,
        decreases v.len() - i,
    {
        let mut ids: Vec<i32> = Vec::new();
        let mut k: usize = 0;
        while k < v[i].len()
            invariant
                i < v@.len(),
                k <= v@[i as int]@.len(),
                ids@ == v@[i as int]@.subrange(0, k as int),
            decreases v[i as int]@.len() - k,
        {
            ids.push(v[i][k]);
            k = k + 1;
        }
        assert(ids@ =~= v@[i as int]@);
        out.push(ids);
        i = i + 1;
    }
    assert(out@.map_values(|x: Vec<i32>| x@) =~= v@.map_values(|x: Vec<i32>| x@));
    out
}

impl MapModel {
    /// A copy of this map.
    pub fn duplicate(&self) -> (r: MapModel)
        ensures
            r@ == self@,
    {
        MapModel {
            world_key_values: kv_clone(&self.world_key_values),
            entities: copy_entities(&self.entities),
            hiddens: copy_entities(&self.hiddens),
            solid_visgroups: copy_id_lists(&self.solid_visgroups),
            rest: clone_file(&self.rest),
        }
    }
}

} // verus!
