//! The inverse operations a journal records for rollback.
//!
//! Every operation keeps both the value it restores and the value the tool left,
//! so a rollback can check that nobody touched the spot in the meantime before it
//! writes anything (compare and swap).

use vstd::prelude::*;

use crate::model::{conns_view, Connection, ConnectionView, EntityModel, EntityView};

verus! {

/// Which entity list of a map an entity sits in.
#[derive(Debug, Clone, Copy, PartialEq, Eq, Structural)]
pub enum Bucket {
    Entity,
    Hidden,
}

/// The token stamped into an entity so that it can be found again across saves.
pub type Token = String;

/// One inverse operation.
#[derive(Debug)]
#[allow(inconsistent_fields)]
pub enum Op {
    /// The tool changed `key` from `old` to `new`.
    Change { at: Token, key: String, old: String, new: String },
    /// The tool added `key` with value `new`.
    Add { at: Token, key: String, new: String },
    /// The tool removed `key`, which held `old` at position `idx`.
    Remove { at: Token, idx: usize, key: String, old: String },
    /// The tool rewired the entity; both lists in written order.
    Connections { at: Token, old: Option<Vec<Connection>>, new: Option<Vec<Connection>> },
    /// The tool created the entity.
    AddEntity { at: Token, bucket: Bucket },
    /// The tool deleted `entity`, which sat at `idx` of `bucket`.
    RemoveEntity { at: Token, bucket: Bucket, idx: usize, entity: Box<EntityModel> },
}

/// The view of an [`Op`].
#[allow(inconsistent_fields)]
pub enum OpView {
    Change { at: Seq<char>, key: Seq<char>, old: Seq<char>, new: Seq<char> },
    Add { at: Seq<char>, key: Seq<char>, new: Seq<char> },
    Remove { at: Seq<char>, idx: nat, key: Seq<char>, old: Seq<char> },
    Connections {
        at: Seq<char>,
        old: Option<Seq<ConnectionView>>,
        new: Option<Seq<ConnectionView>>,
    },
    AddEntity { at: Seq<char>, bucket: Bucket },
    RemoveEntity { at: Seq<char>, bucket: Bucket, idx: nat, entity: EntityView },
}

impl View for Op {
    type V = OpView;

    open spec fn view(&self) -> OpView {
        match self {
            Op::Change { at, key, old, new } => OpView::Change { at: at@, key: key@, old: old@, new: new@ },
            Op::Add { at, key, new } => OpView::Add { at: at@, key: key@, new: new@ },
            Op::Remove { at, idx, key, old } => OpView::Remove {
                at: at@,
                idx: *idx as nat,
                key: key@,
                old: old@,
            },
            Op::Connections { at, old, new } => OpView::Connections {
                at: at@,
                old: conns_view(*old),
                new: conns_view(*new),
            },
            Op::AddEntity { at, bucket } => OpView::AddEntity { at: at@, bucket: *bucket },
            Op::RemoveEntity { at, bucket, idx, entity } => OpView::RemoveEntity {
                at: at@,
                bucket: *bucket,
                idx: *idx as nat,
                entity: entity@,
            },
        }
    }
}

impl OpView {
    /// The token of the entity the operation is about.
    pub open spec fn at(self) -> Seq<char> {
        match self {
            OpView::Change { at, .. } => at,
            OpView::Add { at, .. } => at,
            OpView::Remove { at, .. } => at,
            OpView::Connections { at, .. } => at,
            OpView::AddEntity { at, .. } => at,
            OpView::RemoveEntity { at, .. } => at,
        }
    }

    /// The same operation about the entity with token `t`.
    pub open spec fn with_at(self, t: Seq<char>) -> OpView {
        match self {
            OpView::Change { key, old, new, .. } => OpView::Change { at: t, key, old, new },
            OpView::Add { key, new, .. } => OpView::Add { at: t, key, new },
            OpView::Remove { idx, key, old, .. } => OpView::Remove { at: t, idx, key, old },
            OpView::Connections { old, new, .. } => OpView::Connections { at: t, old, new },
            OpView::AddEntity { bucket, .. } => OpView::AddEntity { at: t, bucket },
            OpView::RemoveEntity { bucket, idx, entity, .. } => OpView::RemoveEntity {
                at: t,
                bucket,
                idx,
                entity,
            },
        }
    }
}

/// The views of a list of operations.
pub open spec fn ops_view(ops: Seq<Op>) -> Seq<OpView> {
    ops.map_values(|o: Op| o@)
}

/// Appending an operation appends its view.
pub proof fn lemma_ops_view_push(s: Seq<Op>, o: Op)
    ensures
        ops_view(s.push(o)) == ops_view(s).push(o@),
{
    assert(ops_view(s.push(o)) =~= ops_view(s).push(o@));
}

impl Op {
    /// The token of the entity the operation is about.
    pub fn token(&self) -> (r: &str)
        ensures
            r@ == self@.at(),
    {
        match self {
            Op::Change { at, .. } => at.as_str(),
            Op::Add { at, .. } => at.as_str(),
            Op::Remove { at, .. } => at.as_str(),
            Op::Connections { at, .. } => at.as_str(),
            Op::AddEntity { at, .. } => at.as_str(),
            Op::RemoveEntity { at, .. } => at.as_str(),
        }
    }

    /// Stamps the operation with the token of the entity it is about.
    pub fn set_token(&mut self, token: &str)
        ensures
            final(self)@ == old(self)@.with_at(token@),
    {
        let t = token.to_string();
        match self {
            Op::Change { at, .. } => *at = t,
            Op::Add { at, .. } => *at = t,
            Op::Remove { at, .. } => *at = t,
            Op::Connections { at, .. } => *at = t,
            Op::AddEntity { at, .. } => *at = t,
            Op::RemoveEntity { at, .. } => *at = t,
        }
    }
}

/// A map-level operation not tied to an entity.
#[derive(Debug)]
pub enum VisgroupOp {
    /// The tool created visgroup `id`, called `name`.
    Add { id: i32, name: String },
}

/// A compare-and-swap mismatch found before a rollback: the spot the journal
/// names does not hold what the tool left there.
#[derive(Debug)]
pub struct Collision {
    pub token: Token,
    pub what: String,
    pub expected: String,
    pub found: String,
}

// ---------------------------------------------------------------------------
// Connections in written order.
// ---------------------------------------------------------------------------

/// The connections of `s` whose output is `o`, in list order.
pub open spec fn with_output(s: Seq<ConnectionView>, o: Seq<char>) -> Seq<ConnectionView>
    decreases s.len(),
{
    if s.len() == 0 {
        s
    } else {
        let rest = with_output(s.drop_last(), o);
        if s.last().output == o {
            rest.push(s.last())
        } else {
            rest
        }
    }
}

/// No connection before position `i` shares the output of connection `i`.
pub open spec fn first_of_output(s: Seq<ConnectionView>, i: int) -> bool {
    forall|j: int| 0 <= j < i ==> s[j].output != s[i].output
}

/// The groups of the outputs that first appear before position `n`, in order of
/// first appearance.
pub open spec fn grouped_prefix(s: Seq<ConnectionView>, n: int) -> Seq<ConnectionView>
    decreases n,
{
    if n <= 0 {
        Seq::empty()
    } else if first_of_output(s, n - 1) {
        grouped_prefix(s, n - 1) + with_output(s, s[n - 1].output)
    } else {
        grouped_prefix(s, n - 1)
    }
}

/// A connection list as a map file holds it: one line per output name, so
/// connections sharing an output come together, outputs in order of first
/// appearance, connections of one output in list order. An empty list is
/// written as no block at all.
pub open spec fn written(c: Option<Seq<ConnectionView>>) -> Option<Seq<ConnectionView>> {
    match c {
        None => None,
        Some(s) => if s.len() == 0 {
            None
        } else {
            Some(grouped_prefix(s, s.len() as int))
        },
    }
}

proof fn lemma_with_output_split(s: Seq<ConnectionView>, o: Seq<char>, i: int)
    requires
        0 <= i <= s.len(),
    ensures
        with_output(s, o) == with_output(s.subrange(0, i), o) + with_output(
            s.subrange(i, s.len() as int),
            o,
        ),
    decreases s.len(),
{
    if i == s.len() {
        assert(s.subrange(0, i) == s);
        assert(s.subrange(i, s.len() as int) == Seq::<ConnectionView>::empty());
    } else {
        lemma_with_output_split(s.drop_last(), o, i);
        assert(s.drop_last().subrange(0, i) == s.subrange(0, i));
        assert(s.subrange(i, s.len() as int).drop_last() == s.drop_last().subrange(
            i,
            s.drop_last().len() as int,
        ));
        assert(s.subrange(i, s.len() as int).last() == s.last());
    }
}

proof fn lemma_with_output_none(s: Seq<ConnectionView>, o: Seq<char>)
    requires
        forall|j: int| 0 <= j < s.len() ==> s[j].output != o,
    ensures
        with_output(s, o) == Seq::<ConnectionView>::empty(),
    decreases s.len(),
{
    if s.len() > 0 {
        lemma_with_output_none(s.drop_last(), o);
    }
}

/// Connections as the file writes them: grouped by output name, outputs in order
/// of first appearance. Guards compare connections in this form, so they behave
/// the same whether a map came off disk or straight from a pass.
///
/// This is the grouping that writing a `connections` block and reading it back
/// with `source_vmf` (`Connection::to_key_values`, then `from_key_values`)
/// performs. That round trip also re-splits each written line at the ESC field
/// separator and at carriage returns; it cannot be called here, since a
/// `source_vmf` connection carries its delay as a floating-point number. The
/// application therefore hands the library every connection list already in
/// the form that round trip gives, on which the round trip changes nothing more
/// than this grouping does (nothing at all), so the two agree on every list the
/// library is given.
pub fn as_written(connections: Option<&Vec<Connection>>) -> (r: Option<Vec<Connection>>)
    ensures
        conns_view(r) == written(
            match connections {
                Some(v) => Some(v@.map_values(|x: Connection| x@)),
                None => None,
            },
        ),
{
    let list = match connections {
        None => {
            return None;
        },
        Some(v) => v,
    };
    let ghost s = list@.map_values(|x: Connection| x@);
    let n = list.len();
    if n == 0 {
        return None;
    }
    let mut out: Vec<Connection> = Vec::new();
    let mut i: usize = 0;
    while i < n
        invariant
            n == list.len(),
            s == list@.map_values(|x: Connection| x@),
            i <= n,
            out@.map_values(|x: Connection| x@) == grouped_prefix(s, i as int),
        decreases n - i,
    {
        let mut first = true;
        let mut j: usize = 0;
        while j < i
            invariant
                n == list.len(),
                s == list@.map_values(|x: Connection| x@),
                j <= i < n,
                first == (forall|k: int| 0 <= k < j ==> s[k].output != s[i as int].output),
            decreases i - j,
        {
            assert(s[j as int] == list@[j as int]@ && s[i as int] == list@[i as int]@);
            if list[j].output == list[i].output {
                first = false;
            }
            j = j + 1;
        }
        if first {
            let ghost before = out@.map_values(|x: Connection| x@);
            let mut k: usize = i;
            while k < n
                invariant
                    n == list.len(),
                    s == list@.map_values(|x: Connection| x@),
                    i <= k <= n,
                    out@.map_values(|x: Connection| x@) == before + with_output(
                        s.subrange(i as int, k as int),
                        s[i as int].output,
                    ),
                decreases n - k,
            {
                let ghost prev = out@;
                if list[k].output == list[i].output {
                    out.push(list[k].duplicate());
                }
                assert(s.subrange(i as int, k + 1).drop_last() == s.subrange(i as int, k as int));
                assert(out@.map_values(|x: Connection| x@) == prev.map_values(
                    |x: Connection| x@,
                ) + (if list@[k as int].output@ == s[i as int].output {
                    seq![s[k as int]]
                } else {
                    Seq::empty()
                }));
                k = k + 1;
            }
            proof {
                lemma_with_output_split(s, s[i as int].output, i as int);
                lemma_with_output_none(s.subrange(0, i as int), s[i as int].output);
                assert(s.subrange(0, i as int) + s.subrange(i as int, n as int) == s);
            }
        }
        i = i + 1;
    }
    assert(s.len() == n);
    Some(out)
}

} // verus!
