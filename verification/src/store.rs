//! The graph store: typed vertices and typed, directed edges, kept in memory
//! by IndraDB.
//!
//! Nothing in this file is proved. It declares the store, names what the
//! store holds, and states for each operation what IndraDB's in-memory
//! datastore does to it. The rest of the library is proved against these
//! statements.
//!
//! The in-memory datastore answers every read, and takes every edge whose
//! ends it holds; a new vertex it may refuse, where the identifier drawn
//! for it is taken.

use indradb::util::extract_vertices;
use indradb::{Database, Identifier, MemoryDatastore, QueryExt, SpecificVertexQuery};
use uuid::Uuid;
use vstd::prelude::*;

verus! {

/// A directed edge as a plain value: source, kind and target.
pub type Edge = (u128, Seq<char>, u128);

/// A vertex that a traversal hands out: its identifier and its kind.
pub type Found = (u128, String);

/// An in-memory IndraDB database. The database itself stays out of sight
/// of the proofs: what it holds is named by `store_vertices` and
/// `store_edges`. Vertex identifiers, which IndraDB keeps as UUIDs, are
/// 128-bit integers on this side, and kinds, which it keeps as
/// `Identifier`s, are their texts.
#[verifier::external_body]
pub struct GraphStore {
    db: Database<MemoryDatastore>,
}

/// `indradb::Error`, whatever the database reports.
#[verifier::external_type_specification]
#[verifier::external_body]
pub struct ExStoreError(indradb::Error);

/// The vertices of the store: each identifier with the kind it was created
/// with.
pub uninterp spec fn store_vertices(store: GraphStore) -> Map<u128, Seq<char>>;

/// The edges of the store.
pub uninterp spec fn store_edges(store: GraphStore) -> Set<(u128, Seq<char>, u128)>;

/// A character that an `Identifier` takes whatever else it takes: an ASCII
/// letter or digit, a hyphen or an underscore.
pub open spec fn plain(c: char) -> bool {
    ('a' <= c && c <= 'z') || ('A' <= c && c <= 'Z') || ('0' <= c && c <= '9') || c == '-' || c
        == '_'
}

/// A text that IndraDB takes as an `Identifier`: at most 255 characters,
/// each of them plain.
pub open spec fn identifier(text: Seq<char>) -> bool {
    text.len() <= 255 && forall|i: int| 0 <= i < text.len() ==> plain(#[trigger] text[i])
}

/// No vertices.
pub open spec fn no_vertices() -> Map<u128, Seq<char>> {
    Map::empty()
}

/// No edges.
pub open spec fn no_edges() -> Set<Edge> {
    Set::empty()
}

/// Every vertex of `found` is in the store, with the kind given for it.
pub open spec fn all_stored(store: GraphStore, found: Seq<Found>) -> bool {
    forall|i: int|
        0 <= i < found.len() ==> {
            &&& store_vertices(store).contains_key(#[trigger] found[i].0)
            &&& store_vertices(store)[found[i].0] == found[i].1@
        }
}

/// Every vertex of `found` has an edge of the kind to `to`.
pub open spec fn all_lead_to(store: GraphStore, found: Seq<Found>, kind: Seq<char>, to: u128) -> bool {
    forall|i: int|
        0 <= i < found.len() ==> store_edges(store).contains((#[trigger] found[i].0, kind, to))
}

/// Every vertex of `found` has an edge of the kind from `from`.
pub open spec fn all_come_from(
    store: GraphStore,
    found: Seq<Found>,
    kind: Seq<char>,
    from: u128,
) -> bool {
    forall|i: int|
        0 <= i < found.len() ==> store_edges(store).contains((from, kind, #[trigger] found[i].0))
}

/// `id` is among `found`.
pub open spec fn is_found(found: Seq<Found>, id: u128) -> bool {
    exists|i: int| 0 <= i < found.len() && #[trigger] found[i].0 == id
}

/// The identifiers of `found` increase strictly.
pub open spec fn ascending(found: Seq<Found>) -> bool {
    forall|i: int, j: int| 0 <= i < j < found.len() ==> #[trigger] found[i].0 < #[trigger] found[j].0
}

/// Both ends of every edge of the store are vertices of the store.
pub open spec fn joined(store: GraphStore) -> bool {
    forall|e: Edge| #[trigger]
        store_edges(store).contains(e) ==> store_vertices(store).contains_key(e.0)
            && store_vertices(store).contains_key(e.2)
}

/// `found`, which may hold `limit` vertices, reaches `id`: it is not full,
/// or `id` does not come after its last vertex.
pub open spec fn in_reach(found: Seq<Found>, limit: u32, id: u128) -> bool {
    found.len() < limit || (found.len() > 0 && id <= found.last().0)
}

/// Of the vertices with an edge of the kind to `to`, `found` leaves out
/// none that is in its reach.
pub open spec fn no_source_skipped(
    store: GraphStore,
    found: Seq<Found>,
    kind: Seq<char>,
    to: u128,
    limit: u32,
) -> bool {
    forall|x: u128| #[trigger]
        store_edges(store).contains((x, kind, to)) && in_reach(found, limit, x) ==> is_found(
            found,
            x,
        )
}

/// Of the vertices with an edge of the kind from `from`, `found` leaves
/// out none that is in its reach.
pub open spec fn no_target_skipped(
    store: GraphStore,
    found: Seq<Found>,
    kind: Seq<char>,
    from: u128,
    limit: u32,
) -> bool {
    forall|x: u128| #[trigger]
        store_edges(store).contains((from, kind, x)) && in_reach(found, limit, x) ==> is_found(
            found,
            x,
        )
}

impl GraphStore {
    /// `MemoryDatastore::new_db`: a database that holds nothing.
    #[verifier::external_body]
    pub(crate) fn open() -> (store: GraphStore)
        ensures
            store_vertices(store) == no_vertices(),
            store_edges(store) == no_edges(),
    {
        GraphStore { db: MemoryDatastore::new_db() }
    }

    /// `Database::create_vertex_from_type`: a vertex of the given kind under
    /// an identifier that the store did not hold. Where the database refuses,
    /// or the kind is no `Identifier`, nothing changes.
    #[verifier::external_body]
    pub(crate) fn create_vertex(&mut self, kind: &str) -> (made: Result<u128, indradb::Error>)
        ensures
            store_edges(*final(self)) == store_edges(*old(self)),
            match made {
                Ok(id) => {
                    &&& !store_vertices(*old(self)).contains_key(id)
                    &&& store_vertices(*final(self)) == store_vertices(*old(self)).insert(
                        id,
                        kind@,
                    )
                },
                Err(_) => store_vertices(*final(self)) == store_vertices(*old(self)),
            },
    {
        let id = self.db.create_vertex_from_type(Identifier::new(kind)?)?;
        Ok(id.as_u128())
    }

    /// `Database::create_edge`: the edge is added, and `true` returned, where
    /// the store holds both of its ends; else nothing changes. An edge that
    /// is already there stays as it is. The in-memory datastore refuses no
    /// edge, so the call fails only where the kind is no `Identifier`.
    #[verifier::external_body]
    pub(crate) fn create_edge(&mut self, from: u128, kind: &str, to: u128) -> (made: Result<
        bool,
        indradb::Error,
    >)
        ensures
            store_vertices(*final(self)) == store_vertices(*old(self)),
            identifier(kind@) ==> made is Ok,
            match made {
                Ok(linked) => {
                    &&& linked == (store_vertices(*old(self)).contains_key(from)
                        && store_vertices(*old(self)).contains_key(to))
                    &&& store_edges(*final(self)) == if linked {
                        store_edges(*old(self)).insert((from, kind@, to))
                    } else {
                        store_edges(*old(self))
                    }
                },
                Err(_) => store_edges(*final(self)) == store_edges(*old(self)),
            },
    {
        let kind = Identifier::new(kind)?;
        let edge = indradb::Edge::new(Uuid::from_u128(from), kind, Uuid::from_u128(to));
        self.db.create_edge(&edge)
    }

    /// `Database::get` of a `SpecificVertexQuery` for one vertex: its kind,
    /// where the store holds it. The in-memory datastore fails no such
    /// query.
    #[verifier::external_body]
    pub(crate) fn vertex_kind(&self, id: u128) -> (found: Result<Option<String>, indradb::Error>)
        ensures
            found is Ok,
            match found {
                Ok(Some(kind)) => store_vertices(*self).contains_key(id) && store_vertices(
                    *self,
                )[id] == kind@,
                Ok(None) => !store_vertices(*self).contains_key(id),
                Err(_) => true,
            },
    {
        let query = SpecificVertexQuery::single(Uuid::from_u128(id));
        let found = extract_vertices(self.db.get(query)?).ok_or(indradb::Error::OperationOnQuery)?;
        Ok(found.first().map(|v| v.t.as_str().to_owned()))
    }

    /// `Database::get` of the edges of one kind that come into `to`, piped
    /// to the vertices they go out from: the first `limit` of these vertices
    /// in the order of their identifiers, each with its kind. The edges are
    /// walked in the order of their sources and cut at `limit`; of their
    /// sources those that the store holds are handed out, which are all of
    /// them where every edge joins two vertices of the store. The in-memory
    /// datastore fails no such query, so the call fails only where the kind
    /// is no `Identifier`.
    #[verifier::external_body]
    pub(crate) fn sources_of(&self, to: u128, kind: &str, limit: u32) -> (found: Result<
        Vec<Found>,
        indradb::Error,
    >)
        ensures
            identifier(kind@) ==> found is Ok,
            found matches Ok(v) ==> v.len() <= limit,
            found matches Ok(v) ==> all_stored(*self, v@),
            found matches Ok(v) ==> all_lead_to(*self, v@, kind@, to),
            found matches Ok(v) ==> ascending(v@),
            found matches Ok(v) ==> joined(*self) ==> no_source_skipped(*self, v@, kind@, to, limit),
    {
        let edges = SpecificVertexQuery::single(Uuid::from_u128(to)).inbound()?;
        let query = edges.t(Identifier::new(kind)?).limit(limit).outbound()?.limit(limit);
        let found = extract_vertices(self.db.get(query)?).ok_or(indradb::Error::OperationOnQuery)?;
        Ok(found.iter().map(|v| (v.id.as_u128(), v.t.as_str().to_owned())).collect())
    }

    /// `Database::get` of the edges of one kind that go out from `from`,
    /// piped to the vertices they come into: the first `limit` of these
    /// vertices in the order of their identifiers, each with its kind. The
    /// edges are walked in the order of their targets and cut at `limit`; of
    /// their targets those that the store holds are handed out, which are
    /// all of them where every edge joins two vertices of the store. The
    /// in-memory datastore fails no such query, so the call fails only where
    /// the kind is no `Identifier`.
    #[verifier::external_body]
    pub(crate) fn targets_of(&self, from: u128, kind: &str, limit: u32) -> (found: Result<
        Vec<Found>,
        indradb::Error,
    >)
        ensures
            identifier(kind@) ==> found is Ok,
            found matches Ok(v) ==> v.len() <= limit,
            found matches Ok(v) ==> all_stored(*self, v@),
            found matches Ok(v) ==> all_come_from(*self, v@, kind@, from),
            found matches Ok(v) ==> ascending(v@),
            found matches Ok(v) ==> joined(*self) ==> no_target_skipped(*self, v@, kind@, from, limit),
    {
        let edges = SpecificVertexQuery::single(Uuid::from_u128(from)).outbound()?;
        let query = edges.t(Identifier::new(kind)?).limit(limit).inbound()?.limit(limit);
        let found = extract_vertices(self.db.get(query)?).ok_or(indradb::Error::OperationOnQuery)?;
        Ok(found.iter().map(|v| (v.id.as_u128(), v.t.as_str().to_owned())).collect())
    }
}

} // verus!
