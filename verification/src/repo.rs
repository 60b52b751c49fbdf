//! The repository: a graph store and a name index, the write path that
//! keeps the two in step, and the fetches that the read paths are made of.

use vstd::prelude::*;

use crate::kinds::{EdgeKind, TestStatus, VertexKind};
use crate::name_index::{
    distinct_ids, find_id, find_name, lemma_rank_bounds, rank, sorted_by_name, Entry, NameIndex,
};
use crate::names::{cuts, cuts_of, lemma_cuts_below, lemma_parent_of_prefix, parent_of, prefix};
use crate::resolve::{among, first_of, lemma_first_of_unique, reaches, Kinded};
use crate::store::{store_edges, store_vertices, Edge, Found, GraphStore};

verus! {

/// Why the repository could not do what it was asked.
#[derive(Clone, Copy, Debug, PartialEq, Eq, Structural)]
pub enum RepoError {
    /// The graph store reported a failure: it made no vertex.
    BackendFailure,
    /// The name index and the graph store disagree.
    InvariantViolation,
}

/// Records one execution of a test.
#[derive(Clone, Debug)]
pub struct NewResult {
    pub test_fqn: String,
    pub status: TestStatus,
    pub properties: Vec<String>,
}

/// Asks for what a vertex contains, or for every named vertex.
#[derive(Clone, Copy, Debug)]
pub struct GetSetVerts(pub Option<u128>);

/// Asks for the named vertices whose names start with a term.
#[derive(Clone, Debug)]
pub struct Search(pub String);

/// Asks for the result matrix of the tests beneath a vertex.
#[derive(Clone, Copy, Debug)]
pub struct GetResultMatrix(pub u128);

/// Both ends of every edge are vertices.
pub open spec fn graph_closed(vertices: Map<u128, Seq<char>>, edges: Set<Edge>) -> bool {
    forall|e: Edge| #[trigger]
        edges.contains(e) ==> vertices.contains_key(e.0) && vertices.contains_key(e.2)
}

/// Every named vertex is in the graph, as a test or as a set.
pub open spec fn names_are_vertices(names: Seq<Entry>, vertices: Map<u128, Seq<char>>) -> bool {
    forall|i: int|
        0 <= i < names.len() ==> {
            &&& vertices.contains_key(#[trigger] names[i].1)
            &&& vertices[names[i].1] == VertexKind::Test.text() || vertices[names[i].1]
                == VertexKind::NamedSet.text()
        }
}

/// Every test and every set of the graph is named.
pub open spec fn kinds_named(names: Seq<Entry>, vertices: Map<u128, Seq<char>>) -> bool {
    forall|x: u128| #[trigger]
        vertices.contains_key(x) && (vertices[x] == VertexKind::Test.text() || vertices[x]
            == VertexKind::NamedSet.text()) ==> find_name(names, x).is_some()
}

/// `name` has no parent, or its parent is named too and the graph links the
/// two.
pub open spec fn linked_up(names: Seq<Entry>, edges: Set<Edge>, name: Seq<char>, id: u128) -> bool {
    match parent_of(name) {
        Some(parent) => find_id(names, parent) matches Some(up) && edges.contains(
            (id, EdgeKind::IsIn.text(), up),
        ),
        None => true,
    }
}

/// Every name is linked to its parent.
pub open spec fn hierarchy_linked(names: Seq<Entry>, edges: Set<Edge>) -> bool {
    forall|i: int| 0 <= i < names.len() ==> linked_up(names, edges, (#[trigger] names[i]).0, names[i].1)
}

/// `n` is `name` or one of its ancestors: what stands before one of its
/// delimiters.
pub open spec fn on_path(name: Seq<char>, n: Seq<char>) -> bool {
    n == name || is_ancestor(name, n, cuts_of(name).len() as int)
}

/// `n` stands before one of the first `k` delimiters of `name`.
pub open spec fn is_ancestor(name: Seq<char>, n: Seq<char>, k: int) -> bool {
    exists|j: int| 0 <= j < k && j < cuts_of(name).len() && n == name.take(#[trigger] cuts_of(name)[j])
}

/// An edge that tells of a named vertex what it is in leads to the vertex
/// of its parent.
pub open spec fn links_lead_up(names: Seq<Entry>, edges: Set<Edge>) -> bool {
    forall|e: Edge| #[trigger]
        edges.contains(e) && e.1 == EdgeKind::IsIn.text() && find_name(names, e.0).is_some() ==> {
            &&& parent_of(find_name(names, e.0).unwrap()).is_some()
            &&& find_id(names, parent_of(find_name(names, e.0).unwrap()).unwrap()) == Some(e.2)
        }
}

/// No result has two edges coming in, and the one that comes in tells
/// whether a test passed.
pub open spec fn judged_once(vertices: Map<u128, Seq<char>>, edges: Set<Edge>) -> bool {
    forall|a: Edge, b: Edge|
        #![trigger edges.contains(a), edges.contains(b)]
        edges.contains(a) && edges.contains(b) && a.2 == b.2 && vertices.contains_key(a.2)
            && vertices[a.2] == VertexKind::TestResult.text() ==> a == b && (a.1
            == EdgeKind::Passed.text() || a.1 == EdgeKind::Failed.text())
}

/// The graph store and the name index.
pub struct Repo {
    store: GraphStore,
    index: NameIndex,
}

impl Repo {
    /// The vertices of the graph: each identifier with the text of its kind.
    pub closed spec fn vertices(&self) -> Map<u128, Seq<char>> {
        store_vertices(self.store)
    }

    /// The edges of the graph: source, text of the kind, target.
    pub closed spec fn edges(&self) -> Set<Edge> {
        store_edges(self.store)
    }

    /// The named vertices, in the order of their names.
    pub closed spec fn names(&self) -> Seq<Entry> {
        self.index@
    }

    /// The vertex that `name` names.
    pub open spec fn id_of(&self, name: Seq<char>) -> Option<u128> {
        find_id(self.names(), name)
    }

    /// The name of the vertex `id`.
    pub open spec fn name_of(&self, id: u128) -> Option<Seq<char>> {
        find_name(self.names(), id)
    }

    /// `id` is a vertex of the given kind.
    pub open spec fn is_vertex(&self, id: u128, kind: VertexKind) -> bool {
        self.vertices().contains_key(id) && self.vertices()[id] == kind.text()
    }

    /// The graph has an edge of the given kind from `from` to `to`.
    pub open spec fn linked(&self, from: u128, kind: EdgeKind, to: u128) -> bool {
        self.edges().contains((from, kind.text(), to))
    }

    /// The index is a sorted bijection, every edge joins two vertices, the
    /// named vertices are the tests and the sets of the graph, every name is
    /// linked to its parent and to nothing else, and no result has more than
    /// one edge coming in, which tells whether a test passed.
    pub closed spec fn wf(&self) -> bool {
        &&& self.index.wf()
        &&& graph_closed(self.vertices(), self.edges())
        &&& names_are_vertices(self.names(), self.vertices())
        &&& kinds_named(self.names(), self.vertices())
        &&& hierarchy_linked(self.names(), self.edges())
        &&& links_lead_up(self.names(), self.edges())
        &&& judged_once(self.vertices(), self.edges())
    }

    /// Nothing that `before` held is gone or changed: names keep their
    /// vertices, vertices their kinds, and edges stay.
    pub open spec fn extends(&self, before: &Repo) -> bool {
        &&& forall|n: Seq<char>|
            #![trigger before.id_of(n)]
            #![trigger self.id_of(n)]
            before.id_of(n).is_some() ==> self.id_of(n) == before.id_of(n)
        &&& forall|x: u128|
            #![trigger before.name_of(x)]
            #![trigger self.name_of(x)]
            before.name_of(x).is_some() ==> self.name_of(x) == before.name_of(x)
        &&& before.vertices().submap_of(self.vertices())
        &&& before.edges().subset_of(self.edges())
    }

    /// The same names, vertices and edges as `before`.
    pub open spec fn same_as(&self, before: &Repo) -> bool {
        &&& self.names() == before.names()
        &&& self.vertices() == before.vertices()
        &&& self.edges() == before.edges()
    }

    /// `self` extends `before`, and what it holds beyond `before` came with
    /// new names: a vertex that is named now and was not is new, and a new
    /// edge tells of such a vertex which named vertex it is in.
    pub open spec fn grown_by_names(&self, before: &Repo) -> bool {
        &&& self.extends(before)
        &&& forall|x: u128|
            #![trigger self.name_of(x)]
            #![trigger before.vertices().contains_key(x)]
            self.name_of(x).is_some() && before.name_of(x).is_none()
                ==> !before.vertices().contains_key(x)
        &&& forall|e: Edge| #[trigger]
            self.edges().contains(e) && !before.edges().contains(e) ==> {
                &&& e.1 == EdgeKind::IsIn.text()
                &&& self.name_of(e.0).is_some()
                &&& before.name_of(e.0).is_none()
                &&& self.name_of(e.2).is_some()
            }
    }

    /// Growth by names adds up.
    pub proof fn lemma_grown_twice(&self, middle: &Repo, before: &Repo)
        requires
            middle.grown_by_names(before),
            self.grown_by_names(middle),
        ensures
            self.grown_by_names(before),
    {
        assert forall|e: Edge| #[trigger]
            self.edges().contains(e) && !before.edges().contains(e) implies {
            &&& e.1 == EdgeKind::IsIn.text()
            &&& self.name_of(e.0).is_some()
            &&& before.name_of(e.0).is_none()
            &&& self.name_of(e.2).is_some()
        } by {
        }
        assert forall|x: u128| #[trigger] before.vertices().dom().contains(x) implies {
            &&& self.vertices().dom().contains(x)
            &&& before.vertices()[x] == self.vertices()[x]
        } by {
            assert(middle.vertices().dom().contains(x));
        }
    }

    /// Extension adds up.
    pub proof fn lemma_extends_twice(&self, middle: &Repo, before: &Repo)
        requires
            middle.extends(before),
            self.extends(middle),
        ensures
            self.extends(before),
    {
        assert forall|n: Seq<char>| before.id_of(n).is_some() implies self.id_of(n)
            == before.id_of(n) by {
            assert(middle.id_of(n) == before.id_of(n));
        }
        assert forall|x: u128| before.name_of(x).is_some() implies self.name_of(x)
            == before.name_of(x) by {
            assert(middle.name_of(x) == before.name_of(x));
        }
        assert forall|x: u128| #[trigger] before.vertices().dom().contains(x) implies {
            &&& self.vertices().dom().contains(x)
            &&& before.vertices()[x] == self.vertices()[x]
        } by {
            assert(before.vertices().submap_of(middle.vertices()));
            assert(middle.vertices().submap_of(self.vertices()));
            assert(middle.vertices().dom().contains(x));
            assert(self.vertices().dom().contains(x));
        }
    }

    /// One of the first `count` of `properties` names `id`.
    pub open spec fn tagged_with(&self, properties: Seq<Seq<char>>, count: int, id: u128) -> bool {
        exists|j: int|
            0 <= j < count && j < properties.len() && self.id_of(#[trigger] properties[j]) == Some(
                id,
            )
    }

    /// `n` is on the path of one of the first `count` of `properties`.
    pub open spec fn on_some_path(properties: Seq<Seq<char>>, count: int, n: Seq<char>) -> bool {
        exists|j: int| 0 <= j < count && j < properties.len() && on_path(#[trigger] properties[j], n)
    }

    /// `self` is `before` with one more execution of the test `test_fqn`
    /// recorded under the first `count` of `properties`, as the vertex
    /// `result`:
    /// the test, the properties and all their ancestors are named;
    /// `result` is a new result vertex without a name;
    /// the one edge that comes into it is that of the verdict, from the test;
    /// the edges that go out from it lead to the properties;
    /// and whatever else is new is a vertex with a new name, a test where it
    /// is the test and a set else, or an edge from such a vertex to the one
    /// of its parent.
    pub open spec fn records(
        &self,
        before: &Repo,
        test_fqn: Seq<char>,
        status: TestStatus,
        properties: Seq<Seq<char>>,
        count: int,
        result: u128,
    ) -> bool {
        &&& self.extends(before)
        &&& !before.vertices().contains_key(result)
        &&& self.is_vertex(result, VertexKind::TestResult)
        &&& self.name_of(result).is_none()
        &&& self.id_of(test_fqn).is_some()
        &&& forall|e: Edge|
            #![trigger self.edges().contains(e)]
            self.edges().contains(e) && e.2 == result <==> e == (
                self.id_of(test_fqn).unwrap(),
                status.edge().text(),
                result,
            )
        &&& forall|e: Edge|
            #![trigger self.edges().contains(e)]
            self.edges().contains(e) && e.0 == result <==> e.0 == result && e.1
                == EdgeKind::IsIn.text() && self.tagged_with(properties, count, e.2)
        &&& forall|n: Seq<char>|
            #![trigger self.id_of(n)]
            self.id_of(n).is_some() <==> before.id_of(n).is_some() || on_path(test_fqn, n)
                || Self::on_some_path(properties, count, n)
        &&& forall|x: u128|
            #![trigger self.vertices().contains_key(x)]
            self.vertices().contains_key(x) ==> before.vertices().contains_key(x) || x == result
                || self.name_of(x).is_some()
        &&& forall|n: Seq<char>|
            #![trigger self.id_of(n)]
            self.id_of(n).is_some() && before.id_of(n).is_none() ==> self.is_vertex(
                self.id_of(n).unwrap(),
                if n == test_fqn {
                    VertexKind::Test
                } else {
                    VertexKind::NamedSet
                },
            )
        &&& forall|e: Edge|
            #![trigger self.edges().contains(e)]
            self.edges().contains(e) && !before.edges().contains(e) ==> e.0 == result || e.2
                == result || (e.1 == EdgeKind::IsIn.text() && self.name_of(e.0).is_some()
                && before.name_of(e.0).is_none())
    }

    /// What a well-formed repository holds: the names are sorted, names and
    /// vertices correspond one to one, a named vertex is a test or a set and
    /// every test and set is named, a
    /// name with a parent has it named and is linked to it and to nothing
    /// else, edges join vertices, and a result has at most one edge coming
    /// in, which tells whether a test passed.
    pub proof fn lemma_wf(&self)
        requires
            self.wf(),
        ensures
            sorted_by_name(self.names()),
            distinct_ids(self.names()),
            forall|i: int|
                0 <= i < self.names().len() ==> {
                    &&& self.id_of((#[trigger] self.names()[i]).0) == Some(self.names()[i].1)
                    &&& self.name_of(self.names()[i].1) == Some(self.names()[i].0)
                },
            forall|n: Seq<char>, x: u128| self.id_of(n) == Some(x) <==> self.name_of(x) == Some(n),
            forall|x: u128|
                #![trigger self.name_of(x)]
                self.name_of(x).is_some() ==> self.is_vertex(x, VertexKind::Test) || self.is_vertex(
                    x,
                    VertexKind::NamedSet,
                ),
            forall|x: u128|
                #![trigger self.vertices().contains_key(x)]
                self.is_vertex(x, VertexKind::Test) || self.is_vertex(x, VertexKind::NamedSet)
                    ==> self.name_of(x).is_some(),
            forall|n: Seq<char>|
                #![trigger self.id_of(n)]
                self.id_of(n).is_some() && parent_of(n).is_some() ==> {
                    &&& self.id_of(parent_of(n).unwrap()).is_some()
                    &&& self.linked(
                        self.id_of(n).unwrap(),
                        EdgeKind::IsIn,
                        self.id_of(parent_of(n).unwrap()).unwrap(),
                    )
                },
            forall|e: Edge| #[trigger]
                self.edges().contains(e) ==> self.vertices().contains_key(e.0)
                    && self.vertices().contains_key(e.2),
            forall|x: u128, y: u128|
                #![trigger self.linked(x, EdgeKind::IsIn, y)]
                self.linked(x, EdgeKind::IsIn, y) && self.name_of(x).is_some() ==> {
                    &&& parent_of(self.name_of(x).unwrap()).is_some()
                    &&& self.id_of(parent_of(self.name_of(x).unwrap()).unwrap()) == Some(y)
                },
            forall|x: u128, y: u128, j: EdgeKind, k: EdgeKind, r: u128|
                #![trigger self.linked(x, j, r), self.linked(y, k, r)]
                self.linked(x, j, r) && self.linked(y, k, r) && self.is_vertex(
                    r,
                    VertexKind::TestResult,
                ) ==> x == y && j == k && j != EdgeKind::IsIn,
    {
        EdgeKind::lemma_texts_differ();
        self.index.lemma_bijection();
    }

    /// A name that is entered has all its ancestors entered.
    pub proof fn lemma_ancestors_named(&self, name: Seq<char>, k: int)
        requires
            self.wf(),
            self.id_of(name).is_some(),
            0 <= k < cuts_of(name).len(),
        ensures
            self.id_of(name.take(cuts_of(name)[k])).is_some(),
        decreases cuts_of(name).len() - k,
    {
        lemma_cuts_below(name, name.len() as int);
        let all = cuts_of(name);
        if k < all.len() - 1 {
            self.lemma_ancestors_named(name, k + 1);
            lemma_parent_of_prefix(name, k + 1);
        }
    }

    /// A repository that holds nothing.
    pub fn new() -> (repo: Repo)
        ensures
            repo.wf(),
            repo.names().len() == 0,
            forall|x: u128| !repo.vertices().contains_key(x),
            forall|e: Edge| !repo.edges().contains(e),
    {
        Repo { store: GraphStore::open(), index: NameIndex::new() }
    }

    /// The vertex that `name` names, if it names one.
    pub fn lookup_id(&self, name: &str) -> (found: Option<u128>)
        requires
            self.wf(),
        ensures
            found == self.id_of(name@),
    {
        self.index.lookup_id(name)
    }

    /// The name of the vertex `id`, if it has one.
    pub fn lookup_name(&self, id: u128) -> (found: Option<&String>)
        requires
            self.wf(),
        ensures
            match found {
                Some(name) => self.name_of(id) == Some(name@),
                None => self.name_of(id).is_none(),
            },
    {
        self.index.lookup_name(id)
    }

    /// The repository is well-formed but for the vertex `id`, which the graph
    /// store has just made with the given kind: the vertex has no name and
    /// no edge yet.
    pub closed spec fn lacks_name(&self, id: u128, kind: VertexKind) -> bool {
        exists|before: Repo|
            #![trigger before.wf()]
            {
                &&& before.wf()
                &&& !before.vertices().contains_key(id)
                &&& self.index == before.index
                &&& self.vertices() == before.vertices().insert(id, kind.text())
                &&& self.edges() == before.edges()
            }
    }

    /// Names a vertex that the graph store made, or reports that it made
    /// none.
    ///
    /// For a vertex: it is linked to `parent`, where there is one, and
    /// entered under `name`; the vertex is returned. For none: nothing
    /// changes, and the call fails with `BackendFailure`.
    pub fn enter_vertex(
        &mut self,
        kind: VertexKind,
        name: &str,
        parent: Option<u128>,
        made: Result<u128, indradb::Error>,
    ) -> (interned: Result<u128, RepoError>)
        requires
            kind == VertexKind::Test || kind == VertexKind::NamedSet,
            old(self).id_of(name@).is_none(),
            match parent_of(name@) {
                Some(p) => parent matches Some(up) && old(self).id_of(p) == Some(up),
                None => parent.is_none(),
            },
            made is Err ==> old(self).wf(),
            made matches Ok(id) ==> old(self).lacks_name(id, kind),
        ensures
            final(self).wf(),
            made is Err ==> interned == Err::<u128, RepoError>(RepoError::BackendFailure)
                && final(self).same_as(old(self)),
            made matches Ok(id) ==> {
                &&& interned == Ok::<u128, RepoError>(id)
                &&& final(self).vertices() == old(self).vertices()
                &&& final(self).edges() == match parent {
                    Some(up) => old(self).edges().insert((id, EdgeKind::IsIn.text(), up)),
                    None => old(self).edges(),
                }
                &&& final(self).names() == old(self).names().insert(
                    rank(old(self).names(), name@),
                    (name@, id),
                )
                &&& forall|n: Seq<char>| #[trigger]
                    final(self).id_of(n) == if n == name@ {
                        Some(id)
                    } else {
                        old(self).id_of(n)
                    }
                &&& forall|x: u128| #[trigger]
                    final(self).name_of(x) == if x == id {
                        Some(name@)
                    } else {
                        old(self).name_of(x)
                    }
            },
    {
        let id = match made {
            Ok(id) => id,
            Err(_) => {
                return Err(RepoError::BackendFailure);
            },
        };
        let ghost before = choose|before: Repo|
            #![trigger before.wf()]
            {
                &&& before.wf()
                &&& !before.vertices().contains_key(id)
                &&& old(self).index == before.index
                &&& old(self).vertices() == before.vertices().insert(id, kind.text())
                &&& old(self).edges() == before.edges()
            };
        proof {
            EdgeKind::lemma_texts_taken();
            before.lemma_wf();
        }
        if let Some(up) = parent {
            match self.store.create_edge(id, EdgeKind::IsIn.as_str(), up) {
                Ok(true) => {},
                Ok(false) => {
                    return Err(RepoError::InvariantViolation);
                },
                Err(_) => {
                    return Err(RepoError::BackendFailure);
                },
            }
        }
        match self.index.insert(name.to_owned(), id) {
            Ok(()) => {
                proof {
                    self.lemma_interned(&before, name@, id, kind, parent);
                }
                Ok(id)
            },
            Err(_) => Err(RepoError::InvariantViolation),
        }
    }

    /// The vertex of `name`: the one it names already, or else a new one of
    /// the given kind, linked to `parent`. Where the graph store makes no
    /// vertex, nothing changes.
    fn intern_name(&mut self, kind: VertexKind, name: &str, parent: Option<u128>) -> (interned:
        Result<u128, RepoError>)
        requires
            old(self).wf(),
            kind == VertexKind::Test || kind == VertexKind::NamedSet,
            match parent_of(name@) {
                Some(p) => parent matches Some(up) && old(self).id_of(p) == Some(up),
                None => parent.is_none(),
            },
        ensures
            final(self).wf(),
            final(self).grown_by_names(old(self)),
            old(self).id_of(name@).is_some() ==> interned.is_ok(),
            interned matches Err(e) ==> e == RepoError::BackendFailure,
            match interned {
                Ok(id) => {
                    &&& final(self).id_of(name@) == Some(id)
                    &&& match old(self).id_of(name@) {
                        Some(entered) => id == entered && final(self).same_as(old(self)),
                        None => {
                            &&& !old(self).vertices().contains_key(id)
                            &&& final(self).vertices() == old(self).vertices().insert(
                                id,
                                kind.text(),
                            )
                            &&& final(self).edges() == match parent {
                                Some(up) => old(self).edges().insert(
                                    (id, EdgeKind::IsIn.text(), up),
                                ),
                                None => old(self).edges(),
                            }
                            &&& final(self).names() == old(self).names().insert(
                                rank(old(self).names(), name@),
                                (name@, id),
                            )
                            &&& forall|n: Seq<char>| #[trigger]
                                final(self).id_of(n) == if n == name@ {
                                    Some(id)
                                } else {
                                    old(self).id_of(n)
                                }
                            &&& forall|x: u128| #[trigger]
                                final(self).name_of(x) == if x == id {
                                    Some(name@)
                                } else {
                                    old(self).name_of(x)
                                }
                        },
                    }
                },
                Err(_) => final(self).same_as(old(self)),
            },
    {
        if let Some(entered) = self.index.lookup_id(name) {
            return Ok(entered);
        }
        let made = self.store.create_vertex(kind.as_str());
        proof {
            if let Ok(id) = made {
                assert(old(self).wf());
                assert(self.lacks_name(id, kind));
            }
        }
        let ghost drawn = *self;
        let interned = self.enter_vertex(kind, name, parent, made);
        proof {
            if let Ok(id) = interned {
                assert(drawn.names() == old(self).names());
                assert forall|n: Seq<char>|
                    #[trigger] find_id(self.names(), n) == if n == name@ {
                        Some(id)
                    } else {
                        find_id(old(self).names(), n)
                    } by {
                    assert(self.id_of(n) == if n == name@ {
                        Some(id)
                    } else {
                        drawn.id_of(n)
                    });
                }
                assert forall|x: u128|
                    #[trigger] find_name(self.names(), x) == if x == id {
                        Some(name@)
                    } else {
                        find_name(old(self).names(), x)
                    } by {
                    assert(self.name_of(x) == if x == id {
                        Some(name@)
                    } else {
                        drawn.name_of(x)
                    });
                }
                self.lemma_interned(old(self), name@, id, kind, parent);
            }
        }
        interned
    }

    /// The state after a new name got its vertex, its link and its entry.
    proof fn lemma_interned(
        &self,
        before: &Repo,
        name: Seq<char>,
        id: u128,
        kind: VertexKind,
        parent: Option<u128>,
    )
        requires
            before.wf(),
            kind == VertexKind::Test || kind == VertexKind::NamedSet,
            match parent_of(name) {
                Some(p) => parent matches Some(up) && before.id_of(p) == Some(up),
                None => parent.is_none(),
            },
            before.id_of(name).is_none(),
            !before.vertices().contains_key(id),
            self.vertices() == before.vertices().insert(id, kind.text()),
            self.edges() == match parent {
                Some(up) => before.edges().insert((id, EdgeKind::IsIn.text(), up)),
                None => before.edges(),
            },
            self.index.wf(),
            self.names() == before.names().insert(rank(before.names(), name), (name, id)),
            forall|n: Seq<char>|
                #[trigger] find_id(self.names(), n) == if n == name {
                    Some(id)
                } else {
                    find_id(before.names(), n)
                },
            forall|x: u128|
                #[trigger] find_name(self.names(), x) == if x == id {
                    Some(name)
                } else {
                    find_name(before.names(), x)
                },
        ensures
            self.wf(),
            self.grown_by_names(before),
    {
        VertexKind::lemma_texts_differ();
        let old_names = before.names();
        lemma_rank_bounds(old_names, name);
    }

    /// The vertex of the fully-qualified `name`, with the vertices of all
    /// its ancestors.
    ///
    /// A name that is entered already keeps its vertex, and nothing changes.
    /// Else the name gets a new vertex of the given kind, each ancestor that
    /// is not entered yet a new set, and each new vertex is linked to the
    /// vertex one level up. Where the graph store fails, the ancestors
    /// interned so far stay.
    pub fn intern_fq_name(&mut self, kind: VertexKind, name: &str) -> (interned: Result<
        u128,
        RepoError,
    >)
        requires
            old(self).wf(),
            kind == VertexKind::Test || kind == VertexKind::NamedSet,
        ensures
            final(self).wf(),
            final(self).grown_by_names(old(self)),
            old(self).id_of(name@) matches Some(entered) ==> interned == Ok::<u128, RepoError>(
                entered,
            ) && final(self).same_as(old(self)),
            interned matches Err(e) ==> e == RepoError::BackendFailure,
            interned matches Ok(id) ==> {
                &&& final(self).id_of(name@) == Some(id)
                &&& old(self).id_of(name@).is_none() ==> final(self).is_vertex(id, kind)
                &&& forall|n: Seq<char>|
                    #![trigger final(self).id_of(n)]
                    final(self).id_of(n).is_some() <==> old(self).id_of(n).is_some() || on_path(
                        name@,
                        n,
                    )
                &&& forall|n: Seq<char>|
                    #![trigger final(self).id_of(n)]
                    final(self).id_of(n).is_some() && old(self).id_of(n).is_none() && n != name@
                        ==> final(self).is_vertex(final(self).id_of(n).unwrap(), VertexKind::NamedSet)
                &&& forall|x: u128| #[trigger]
                    final(self).vertices().contains_key(x) ==> old(self).vertices().contains_key(x)
                        || final(self).name_of(x).is_some()
            },
    {
        let places = cuts(name);
        let ghost all = cuts_of(name@);
        let mut parent: Option<u128> = None;
        let mut k: usize = 0;
        proof {
            lemma_cuts_below(name@, name@.len() as int);
        }
        while k < places.len()
            invariant
                0 <= k <= places.len(),
                all == cuts_of(name@),
                places@.map_values(|c: usize| c as int) == all,
                forall|j: int| 0 <= j < all.len() ==> 0 <= #[trigger] all[j] < name@.len(),
                kind == VertexKind::Test || kind == VertexKind::NamedSet,
                old(self).wf(),
                self.wf(),
                self.grown_by_names(old(self)),
                old(self).id_of(name@).is_some() ==> self.same_as(old(self)),
                k == 0 ==> parent.is_none(),
                k > 0 ==> parent.is_some() && self.id_of(name@.take(all[k - 1])) == parent,
                forall|n: Seq<char>|
                    #![trigger self.id_of(n)]
                    self.id_of(n).is_some() <==> old(self).id_of(n).is_some() || is_ancestor(
                        name@,
                        n,
                        k as int,
                    ),
                forall|n: Seq<char>|
                    #![trigger self.id_of(n)]
                    self.id_of(n).is_some() && old(self).id_of(n).is_none() ==> self.is_vertex(
                        self.id_of(n).unwrap(),
                        VertexKind::NamedSet,
                    ),
                forall|x: u128| #[trigger]
                    self.vertices().contains_key(x) ==> old(self).vertices().contains_key(x)
                        || self.name_of(x).is_some(),
            decreases places.len() - k,
        {
            let ghost middle = *self;
            assert(places@.map_values(|c: usize| c as int)[k as int] == places[k as int]);
            let level = prefix(name, places[k]);
            proof {
                lemma_parent_of_prefix(name@, k as int);
                if old(self).id_of(name@).is_some() {
                    old(self).lemma_ancestors_named(name@, k as int);
                }
            }
            let up = match self.intern_name(VertexKind::NamedSet, level.as_str(), parent) {
                Ok(up) => up,
                Err(e) => {
                    proof {
                        self.lemma_grown_twice(&middle, old(self));
                    }
                    return Err(e);
                },
            };
            proof {
                self.lemma_grown_twice(&middle, old(self));
            }
            parent = Some(up);
            k = k + 1;
        }
        let ghost middle = *self;
        match self.intern_name(kind, name, parent) {
            Ok(id) => {
                proof {
                        self.lemma_grown_twice(&middle, old(self));
                }
                Ok(id)
            },
            Err(e) => {
                proof {
                        self.lemma_grown_twice(&middle, old(self));
                }
                Err(e)
            },
        }
    }

    /// `self` is `before` with the test `test_fqn` and the first `count` of
    /// `properties` interned, and nothing else:
    /// the test, these properties and all their ancestors are named;
    /// and whatever is new is a vertex with a new name, a test where it is
    /// the test and a set else, or an edge from such a vertex to the one of
    /// its parent.
    pub open spec fn names_entered(
        &self,
        before: &Repo,
        test_fqn: Seq<char>,
        properties: Seq<Seq<char>>,
        count: int,
    ) -> bool {
        &&& self.grown_by_names(before)
        &&& self.id_of(test_fqn).is_some()
        &&& forall|n: Seq<char>|
            #![trigger self.id_of(n)]
            self.id_of(n).is_some() <==> before.id_of(n).is_some() || on_path(test_fqn, n)
                || Self::on_some_path(properties, count, n)
        &&& forall|x: u128|
            #![trigger self.vertices().contains_key(x)]
            self.vertices().contains_key(x) ==> before.vertices().contains_key(x) || self.name_of(
                x,
            ).is_some()
        &&& forall|n: Seq<char>|
            #![trigger self.id_of(n)]
            self.id_of(n).is_some() && before.id_of(n).is_none() ==> self.is_vertex(
                self.id_of(n).unwrap(),
                if n == test_fqn {
                    VertexKind::Test
                } else {
                    VertexKind::NamedSet
                },
            )
    }

    /// The state after one more property was interned.
    proof fn lemma_entered(
        &self,
        middle: &Repo,
        before: &Repo,
        test_fqn: Seq<char>,
        properties: Seq<Seq<char>>,
        i: int,
    )
        requires
            middle.names_entered(before, test_fqn, properties, i),
            0 <= i < properties.len(),
            self.grown_by_names(middle),
            forall|n: Seq<char>|
                #![trigger self.id_of(n)]
                self.id_of(n).is_some() <==> middle.id_of(n).is_some() || on_path(properties[i], n),
            forall|x: u128|
                #![trigger self.vertices().contains_key(x)]
                self.vertices().contains_key(x) ==> middle.vertices().contains_key(x)
                    || self.name_of(x).is_some(),
            forall|n: Seq<char>|
                #![trigger self.id_of(n)]
                self.id_of(n).is_some() && middle.id_of(n).is_none() ==> self.is_vertex(
                    self.id_of(n).unwrap(),
                    VertexKind::NamedSet,
                ),
        ensures
            self.names_entered(before, test_fqn, properties, i + 1),
    {
        self.lemma_grown_twice(middle, before);
        assert forall|n: Seq<char>|
            #![trigger self.id_of(n)]
            self.id_of(n).is_some() <==> before.id_of(n).is_some() || on_path(test_fqn, n)
                || Self::on_some_path(properties, i + 1, n) by {
            assert(middle.id_of(n).is_some() <==> before.id_of(n).is_some() || on_path(test_fqn, n)
                || Self::on_some_path(properties, i, n));
            if Self::on_some_path(properties, i, n) {
                let j = choose|j: int|
                    0 <= j < i && j < properties.len() && on_path(#[trigger] properties[j], n);
                assert(0 <= j < i + 1 && on_path(properties[j], n));
            }
            if on_path(properties[i], n) {
                assert(Self::on_some_path(properties, i + 1, n));
            }
            if Self::on_some_path(properties, i + 1, n) {
                let j = choose|j: int|
                    0 <= j < i + 1 && j < properties.len() && on_path(#[trigger] properties[j], n);
                if j < i {
                    assert(Self::on_some_path(properties, i, n));
                }
            }
        }
        assert forall|x: u128|
            #![trigger self.vertices().contains_key(x)]
            self.vertices().contains_key(x) implies before.vertices().contains_key(x)
            || self.name_of(x).is_some() by {
            if middle.vertices().contains_key(x) && !before.vertices().contains_key(x) {
                assert(middle.name_of(x).is_some());
                assert(self.name_of(x) == middle.name_of(x));
            }
        }
        assert forall|n: Seq<char>|
            #![trigger self.id_of(n)]
            self.id_of(n).is_some() && before.id_of(n).is_none() implies self.is_vertex(
            self.id_of(n).unwrap(),
            if n == test_fqn {
                VertexKind::Test
            } else {
                VertexKind::NamedSet
            },
        ) by {
            if middle.id_of(n).is_some() {
                assert(self.id_of(n) == middle.id_of(n));
                let x = middle.id_of(n).unwrap();
                assert(middle.vertices().contains_key(x));
                assert(self.vertices().contains_key(x) && self.vertices()[x]
                    == middle.vertices()[x]);
            } else {
                assert(n != test_fqn);
            }
        }
    }

    /// A new result vertex leaves the repository well-formed; the vertex
    /// has no name and no edge.
    proof fn lemma_result_made(&self, named: &Repo, result: u128)
        requires
            named.wf(),
            !named.vertices().contains_key(result),
            self.index == named.index,
            self.vertices() == named.vertices().insert(result, VertexKind::TestResult.text()),
            self.edges() == named.edges(),
        ensures
            self.wf(),
            self.name_of(result).is_none(),
            forall|e: Edge| #[trigger] self.edges().contains(e) ==> e.0 != result && e.2 != result,
    {
        VertexKind::lemma_texts_differ();
        named.lemma_wf();
        assert(kinds_named(self.names(), self.vertices())) by {
            assert forall|x: u128| #[trigger]
                self.vertices().contains_key(x) && (self.vertices()[x] == VertexKind::Test.text()
                    || self.vertices()[x] == VertexKind::NamedSet.text()) implies find_name(
                self.names(),
                x,
            ).is_some() by {
                assert(named.vertices().contains_key(x));
            }
        }
        assert(judged_once(self.vertices(), self.edges())) by {
            assert forall|a: Edge, b: Edge|
                #![trigger self.edges().contains(a), self.edges().contains(b)]
                self.edges().contains(a) && self.edges().contains(b) && a.2 == b.2
                    && self.vertices().contains_key(a.2) && self.vertices()[a.2]
                    == VertexKind::TestResult.text() implies a == b && (a.1
                == EdgeKind::Passed.text() || a.1 == EdgeKind::Failed.text()) by {
                assert(named.edges().contains(a) && named.edges().contains(b));
                assert(named.vertices().contains_key(a.2));
            }
        }
    }

    /// One more edge leaves the repository well-formed, where it joins two
    /// vertices, tells of no named vertex what it is in, and comes into a
    /// result only as its verdict and as the first edge.
    proof fn lemma_edge_added(&self, before: &Repo, from: u128, kind: EdgeKind, to: u128)
        requires
            before.wf(),
            before.vertices().contains_key(from),
            before.vertices().contains_key(to),
            kind == EdgeKind::IsIn ==> before.name_of(from).is_none(),
            before.is_vertex(to, VertexKind::TestResult) ==> kind != EdgeKind::IsIn && forall|
                e: Edge,
            | #[trigger] before.edges().contains(e) ==> e.2 != to,
            self.index == before.index,
            self.vertices() == before.vertices(),
            self.edges() == before.edges().insert((from, kind.text(), to)),
        ensures
            self.wf(),
    {
        EdgeKind::lemma_texts_differ();
        let added = (from, kind.text(), to);
        assert(links_lead_up(self.names(), self.edges())) by {
            assert forall|e: Edge| #[trigger]
                self.edges().contains(e) && e.1 == EdgeKind::IsIn.text() && find_name(
                    self.names(),
                    e.0,
                ).is_some() implies {
                &&& parent_of(find_name(self.names(), e.0).unwrap()).is_some()
                &&& find_id(self.names(), parent_of(find_name(self.names(), e.0).unwrap()).unwrap())
                    == Some(e.2)
            } by {
                assert(e != added);
                assert(before.edges().contains(e));
            }
        }
        assert(judged_once(self.vertices(), self.edges())) by {
            assert forall|a: Edge, b: Edge|
                #![trigger self.edges().contains(a), self.edges().contains(b)]
                self.edges().contains(a) && self.edges().contains(b) && a.2 == b.2
                    && self.vertices().contains_key(a.2) && self.vertices()[a.2]
                    == VertexKind::TestResult.text() implies a == b && (a.1
                == EdgeKind::Passed.text() || a.1 == EdgeKind::Failed.text()) by {
                if a == added || b == added {
                    if a != added {
                        assert(before.edges().contains(a));
                    }
                    if b != added {
                        assert(before.edges().contains(b));
                    }
                } else {
                    assert(before.edges().contains(a) && before.edges().contains(b));
                }
            }
        }
    }

    /// `self` is `before` with the result `result` of `test` linked up:
    /// the same names and vertices, and beyond the edges of `before` the
    /// edge of the verdict from `test` to `result` and an edge from `result`
    /// to each of `tags`.
    pub open spec fn links(
        &self,
        before: &Repo,
        test: u128,
        status: TestStatus,
        result: u128,
        tags: Seq<u128>,
    ) -> bool {
        &&& self.names() == before.names()
        &&& self.vertices() == before.vertices()
        &&& forall|e: Edge|
            #![trigger self.edges().contains(e)]
            self.edges().contains(e) <==> before.edges().contains(e) || e == (
                test,
                status.edge().text(),
                result,
            ) || (e.0 == result && e.1 == EdgeKind::IsIn.text() && tags.contains(e.2))
    }

    /// Links a result vertex that the graph store made, or reports that it
    /// made none.
    ///
    /// For a vertex: the edge of the verdict from `test`, and an edge to each
    /// of `tags`; the vertex is returned. For none: nothing changes, and the
    /// call fails with `BackendFailure`.
    pub fn link_result(
        &mut self,
        test: u128,
        status: TestStatus,
        made: Result<u128, indradb::Error>,
        tags: &Vec<u128>,
    ) -> (recorded: Result<u128, RepoError>)
        requires
            old(self).wf(),
            old(self).name_of(test).is_some(),
            forall|j: int| 0 <= j < tags.len() ==> old(self).name_of(#[trigger] tags[j]).is_some(),
            made matches Ok(result) ==> old(self).is_vertex(result, VertexKind::TestResult)
                && forall|e: Edge| #[trigger]
                old(self).edges().contains(e) ==> e.0 != result && e.2 != result,
        ensures
            final(self).wf(),
            made is Err ==> recorded == Err::<u128, RepoError>(RepoError::BackendFailure)
                && final(self).same_as(old(self)),
            made matches Ok(result) ==> recorded == Ok::<u128, RepoError>(result)
                && final(self).links(old(self), test, status, result, tags@),
    {
        let result = match made {
            Ok(result) => result,
            Err(_) => {
                return Err(RepoError::BackendFailure);
            },
        };
        proof {
            EdgeKind::lemma_texts_taken();
            EdgeKind::lemma_texts_differ();
            VertexKind::lemma_texts_differ();
            old(self).lemma_wf();
        }
        match self.store.create_edge(test, status.edge_kind().as_str(), result) {
            Ok(true) => {},
            Ok(false) => {
                return Err(RepoError::InvariantViolation);
            },
            Err(_) => {
                return Err(RepoError::BackendFailure);
            },
        }
        proof {
            self.lemma_edge_added(old(self), test, status.edge(), result);
            assert(tags@.take(0) =~= Seq::<u128>::empty());
        }
        let mut i: usize = 0;
        while i < tags.len()
            invariant
                0 <= i <= tags.len(),
                old(self).wf(),
                self.wf(),
                self.links(old(self), test, status, result, tags@.take(i as int)),
                old(self).name_of(test).is_some(),
                forall|j: int|
                    0 <= j < tags.len() ==> old(self).name_of(#[trigger] tags[j]).is_some(),
                old(self).is_vertex(result, VertexKind::TestResult),
            decreases tags.len() - i,
        {
            let ghost middle = *self;
            proof {
                EdgeKind::lemma_texts_taken();
                VertexKind::lemma_texts_differ();
                old(self).lemma_wf();
                middle.lemma_wf();
            }
            match self.store.create_edge(result, EdgeKind::IsIn.as_str(), tags[i]) {
                Ok(true) => {},
                Ok(false) => {
                    return Err(RepoError::InvariantViolation);
                },
                Err(_) => {
                    return Err(RepoError::BackendFailure);
                },
            }
            proof {
                self.lemma_edge_added(&middle, result, EdgeKind::IsIn, tags[i as int]);
                let now = tags@.take(i + 1);
                let was = tags@.take(i as int);
                assert(now =~= was.push(tags[i as int]));
                assert forall|e: Edge|
                    #![trigger self.edges().contains(e)]
                    self.edges().contains(e) <==> old(self).edges().contains(e) || e == (
                        test,
                        status.edge().text(),
                        result,
                    ) || (e.0 == result && e.1 == EdgeKind::IsIn.text() && now.contains(e.2)) by {
                    assert(middle.edges().contains(e) <==> old(self).edges().contains(e) || e == (
                        test,
                        status.edge().text(),
                        result,
                    ) || (e.0 == result && e.1 == EdgeKind::IsIn.text() && was.contains(e.2)));
                    if was.contains(e.2) {
                        let j = choose|j: int| 0 <= j < was.len() && was[j] == e.2;
                        assert(now[j] == e.2);
                    }
                    if now.contains(e.2) && e.2 != tags[i as int] {
                        let j = choose|j: int| 0 <= j < now.len() && now[j] == e.2;
                        assert(was[j] == e.2);
                    }
                    assert(now[i as int] == tags[i as int]);
                }
            }
            i = i + 1;
        }
        assert(tags@.take(i as int) =~= tags@);
        Ok(result)
    }

    /// The state after the test and the properties were interned, a result
    /// vertex made and linked up.
    proof fn lemma_recorded(
        &self,
        made: &Repo,
        named: &Repo,
        before: &Repo,
        test_fqn: Seq<char>,
        status: TestStatus,
        properties: Seq<Seq<char>>,
        tags: Seq<u128>,
        result: u128,
    )
        requires
            before.wf(),
            named.wf(),
            named.names_entered(before, test_fqn, properties, properties.len() as int),
            tags.len() == properties.len(),
            forall|j: int| 0 <= j < tags.len() ==> named.id_of(#[trigger] properties[j]) == Some(tags[j]),
            !named.vertices().contains_key(result),
            made.index == named.index,
            made.vertices() == named.vertices().insert(result, VertexKind::TestResult.text()),
            made.edges() == named.edges(),
            self.links(made, named.id_of(test_fqn).unwrap(), status, result, tags),
        ensures
            self.records(before, test_fqn, status, properties, properties.len() as int, result),
    {
        VertexKind::lemma_texts_differ();
        EdgeKind::lemma_texts_differ();
        named.lemma_wf();
        let test = named.id_of(test_fqn).unwrap();
        let count = properties.len() as int;
        assert(self.names() == named.names());
        assert(self.extends(before)) by {
            assert forall|x: u128| #[trigger] before.vertices().dom().contains(x) implies {
                &&& self.vertices().dom().contains(x)
                &&& before.vertices()[x] == self.vertices()[x]
            } by {
                assert(named.vertices().dom().contains(x));
            }
            assert forall|e: Edge| before.edges().contains(e) implies self.edges().contains(e) by {
                assert(named.edges().contains(e));
            }
        }
        assert(self.name_of(result).is_none());
        assert forall|n: Seq<char>|
            #![trigger self.id_of(n)]
            self.id_of(n).is_some() <==> before.id_of(n).is_some() || on_path(test_fqn, n)
                || Self::on_some_path(properties, count, n) by {
            assert(self.id_of(n) == named.id_of(n));
        }
        assert forall|x: u128|
            #![trigger self.vertices().contains_key(x)]
            self.vertices().contains_key(x) implies before.vertices().contains_key(x) || x == result
            || self.name_of(x).is_some() by {
            if x != result {
                assert(named.vertices().contains_key(x));
                assert(self.name_of(x) == named.name_of(x));
            }
        }
        assert forall|n: Seq<char>|
            #![trigger self.id_of(n)]
            self.id_of(n).is_some() && before.id_of(n).is_none() implies self.is_vertex(
            self.id_of(n).unwrap(),
            if n == test_fqn {
                VertexKind::Test
            } else {
                VertexKind::NamedSet
            },
        ) by {
            assert(self.id_of(n) == named.id_of(n));
            assert(named.vertices().contains_key(named.id_of(n).unwrap()));
        }
        assert forall|e: Edge|
            #![trigger self.edges().contains(e)]
            self.edges().contains(e) && e.2 == result <==> e == (
                self.id_of(test_fqn).unwrap(),
                status.edge().text(),
                result,
            ) by {
            if made.edges().contains(e) {
                assert(named.vertices().contains_key(e.2));
            }
            if e.0 == result && e.1 == EdgeKind::IsIn.text() && tags.contains(e.2) {
                let j = choose|j: int| 0 <= j < tags.len() && tags[j] == e.2;
                assert(named.id_of(properties[j]) == Some(tags[j]));
                assert(named.vertices().contains_key(e.2));
            }
        }
        assert forall|e: Edge|
            #![trigger self.edges().contains(e)]
            self.edges().contains(e) && e.0 == result <==> e.0 == result && e.1
                == EdgeKind::IsIn.text() && self.tagged_with(properties, count, e.2) by {
            if made.edges().contains(e) {
                assert(named.vertices().contains_key(e.0));
            }
            assert(named.vertices().contains_key(test));
            if e.0 == result && e.1 == EdgeKind::IsIn.text() && tags.contains(e.2) {
                let j = choose|j: int| 0 <= j < tags.len() && tags[j] == e.2;
                assert(self.id_of(properties[j]) == Some(e.2));
            }
            if self.tagged_with(properties, count, e.2) {
                let j = choose|j: int|
                    0 <= j < count && j < properties.len() && self.id_of(#[trigger] properties[j])
                        == Some(e.2);
                assert(tags[j] == e.2);
            }
        }
        assert forall|e: Edge|
            #![trigger self.edges().contains(e)]
            self.edges().contains(e) && !before.edges().contains(e) implies e.0 == result || e.2
            == result || (e.1 == EdgeKind::IsIn.text() && self.name_of(e.0).is_some()
            && before.name_of(e.0).is_none()) by {
            if e.0 != result && e.2 != result {
                assert(named.edges().contains(e));
            }
        }
    }

    /// Records one execution of a test: interns the test and the properties,
    /// has the graph store make a result vertex, links the test to it by the
    /// verdict, and links it to each property.
    ///
    /// Every call makes a new result vertex. The graph store takes every
    /// edge between vertices that it holds, so the call fails only where the
    /// store makes no vertex, with `BackendFailure`. A call that fails has
    /// recorded nothing: what it leaves behind are names with their
    /// vertices, and the call can be made again.
    pub fn record_result(&mut self, msg: &NewResult) -> (recorded: Result<u128, RepoError>)
        requires
            old(self).wf(),
        ensures
            final(self).wf(),
            final(self).extends(old(self)),
            recorded matches Err(e) ==> e == RepoError::BackendFailure,
            recorded is Err ==> final(self).grown_by_names(old(self)),
            recorded matches Ok(result) ==> final(self).records(
                old(self),
                msg.test_fqn@,
                msg.status,
                msg.properties.deep_view(),
                msg.properties.len() as int,
                result,
            ),
    {
        let ghost properties = msg.properties.deep_view();
        let test = match self.intern_fq_name(VertexKind::Test, msg.test_fqn.as_str()) {
            Ok(test) => test,
            Err(e) => {
                return Err(e);
            },
        };
        let mut tags: Vec<u128> = Vec::new();
        let mut i: usize = 0;
        while i < msg.properties.len()
            invariant
                0 <= i <= msg.properties.len(),
                properties == msg.properties.deep_view(),
                old(self).wf(),
                self.wf(),
                self.names_entered(old(self), msg.test_fqn@, properties, i as int),
                self.id_of(msg.test_fqn@) == Some(test),
                tags.len() == i,
                forall|j: int| 0 <= j < i ==> self.id_of(#[trigger] properties[j]) == Some(tags[j]),
            decreases msg.properties.len() - i,
        {
            let ghost middle = *self;
            let property =
                match self.intern_fq_name(VertexKind::NamedSet, msg.properties[i].as_str()) {
                Ok(property) => property,
                Err(e) => {
                    proof {
                        self.lemma_grown_twice(&middle, old(self));
                    }
                    return Err(e);
                },
            };
            proof {
                self.lemma_entered(&middle, old(self), msg.test_fqn@, properties, i as int);
                assert forall|j: int| 0 <= j < i implies self.id_of(#[trigger] properties[j])
                    == Some(tags[j]) by {
                    assert(middle.id_of(properties[j]) == Some(tags[j]));
                }
            }
            tags.push(property);
            i = i + 1;
        }
        let ghost named = *self;
        let made = self.store.create_vertex(VertexKind::TestResult.as_str());
        let ghost drawn = *self;
        proof {
            named.lemma_wf();
            if let Ok(result) = made {
                self.lemma_result_made(&named, result);
            }
            assert(self.name_of(test) == named.name_of(test));
            assert forall|j: int| 0 <= j < tags.len() implies self.name_of(
                #[trigger] tags[j],
            ).is_some() by {
                assert(named.id_of(properties[j]) == Some(tags[j]));
                assert(self.name_of(tags[j]) == named.name_of(tags[j]));
            }
        }
        let recorded = self.link_result(test, msg.status, made, &tags);
        proof {
            if let Ok(result) = recorded {
                self.lemma_recorded(
                    &drawn,
                    &named,
                    old(self),
                    msg.test_fqn@,
                    msg.status,
                    properties,
                    tags@,
                    result,
                );
            }
        }
        recorded
    }

    /// Every vertex of `found` is in the graph, with the kind given for it.
    pub open spec fn holds_all(&self, found: Seq<Kinded>) -> bool {
        forall|j: int|
            0 <= j < found.len() ==> {
                &&& self.vertices().contains_key((#[trigger] found[j]).0)
                &&& self.vertices()[found[j].0] == found[j].1
            }
    }

    /// The vertices with an edge of the given kind to `to`.
    pub open spec fn sources(&self, kind: EdgeKind, to: u128) -> Set<u128> {
        Set::new(|x: u128| self.linked(x, kind, to))
    }

    /// The vertices with an edge of the given kind from `from`.
    pub open spec fn targets(&self, from: u128, kind: EdgeKind) -> Set<u128> {
        Set::new(|x: u128| self.linked(from, kind, x))
    }

    /// `found` holds the first `limit` vertices with an edge of the given
    /// kind to `to`, in the order of their identifiers, each with its kind;
    /// or all of them, where there are no more.
    pub open spec fn first_into(&self, to: u128, kind: EdgeKind, limit: int, found: Seq<Kinded>) -> bool {
        self.holds_all(found) && first_of(self.sources(kind, to), limit, found)
    }

    /// `found` holds the first `limit` vertices with an edge of the given
    /// kind from `from`, in the order of their identifiers, each with its
    /// kind; or all of them, where there are no more.
    pub open spec fn first_out_of(
        &self,
        from: u128,
        kind: EdgeKind,
        limit: int,
        found: Seq<Kinded>,
    ) -> bool {
        self.holds_all(found) && first_of(self.targets(from, kind), limit, found)
    }

    /// The first vertices with an edge to a vertex are determined by the
    /// graph.
    pub proof fn lemma_first_into_unique(
        &self,
        to: u128,
        kind: EdgeKind,
        limit: int,
        a: Seq<Kinded>,
        b: Seq<Kinded>,
    )
        requires
            self.first_into(to, kind, limit, a),
            self.first_into(to, kind, limit, b),
        ensures
            a == b,
    {
        lemma_first_of_unique(self.sources(kind, to), limit, a, b);
    }

    /// The first vertices with an edge from a vertex are determined by the
    /// graph.
    pub proof fn lemma_first_out_of_unique(
        &self,
        from: u128,
        kind: EdgeKind,
        limit: int,
        a: Seq<Kinded>,
        b: Seq<Kinded>,
    )
        requires
            self.first_out_of(from, kind, limit, a),
            self.first_out_of(from, kind, limit, b),
        ensures
            a == b,
    {
        lemma_first_of_unique(self.targets(from, kind), limit, a, b);
    }

    /// The name index.
    pub fn index(&self) -> (index: &NameIndex)
        requires
            self.wf(),
        ensures
            index.wf(),
            index@ == self.names(),
    {
        &self.index
    }

    /// The kind of the vertex `id`, where the graph has it. The graph store
    /// answers every such question.
    pub fn vertex_kind(&self, id: u128) -> (found: Result<Option<String>, RepoError>)
        ensures
            found matches Ok(known) && match known {
                Some(kind) => self.vertices().contains_key(id) && self.vertices()[id] == kind@,
                None => !self.vertices().contains_key(id),
            },
    {
        match self.store.vertex_kind(id) {
            Ok(found) => Ok(found),
            Err(_) => Err(RepoError::BackendFailure),
        }
    }

    /// The first `limit` vertices with an edge of the given kind to `to`, in
    /// the order of their identifiers, each with its kind. The graph store
    /// answers every such fetch.
    pub fn sources_of(&self, to: u128, kind: EdgeKind, limit: u32) -> (fetched: Result<
        Vec<Found>,
        RepoError,
    >)
        requires
            self.wf(),
        ensures
            fetched matches Ok(found) && self.first_into(to, kind, limit as int, found.deep_view()),
    {
        proof {
            EdgeKind::lemma_texts_taken();
        }
        match self.store.sources_of(to, kind.as_str(), limit) {
            Ok(found) => {
                proof {
                    let list = found.deep_view();
                    let wanted = self.sources(kind, to);
                    assert forall|x: u128| #[trigger]
                        wanted.contains(x) && reaches(list, limit as int, x) implies among(
                        list,
                        x,
                    ) by {
                        let j = choose|j: int| 0 <= j < found.len() && #[trigger] found[j].0 == x;
                        assert(list[j].0 == x);
                    }
                }
                Ok(found)
            },
            Err(_) => Err(RepoError::BackendFailure),
        }
    }

    /// The first `limit` vertices with an edge of the given kind from
    /// `from`, in the order of their identifiers, each with its kind. The
    /// graph store answers every such fetch.
    pub fn targets_of(&self, from: u128, kind: EdgeKind, limit: u32) -> (fetched: Result<
        Vec<Found>,
        RepoError,
    >)
        requires
            self.wf(),
        ensures
            fetched matches Ok(found) && self.first_out_of(
                from,
                kind,
                limit as int,
                found.deep_view(),
            ),
    {
        proof {
            EdgeKind::lemma_texts_taken();
        }
        match self.store.targets_of(from, kind.as_str(), limit) {
            Ok(found) => {
                proof {
                    let list = found.deep_view();
                    let wanted = self.targets(from, kind);
                    assert forall|x: u128| #[trigger]
                        wanted.contains(x) && reaches(list, limit as int, x) implies among(
                        list,
                        x,
                    ) by {
                        let j = choose|j: int| 0 <= j < found.len() && #[trigger] found[j].0 == x;
                        assert(list[j].0 == x);
                    }
                }
                Ok(found)
            },
            Err(_) => Err(RepoError::BackendFailure),
        }
    }
}

impl Default for Repo {
    fn default() -> (repo: Repo)
        ensures
            repo.wf(),
            repo.names().len() == 0,
            forall|x: u128| !repo.vertices().contains_key(x),
            forall|e: Edge| !repo.edges().contains(e),
    {
        Repo::new()
    }
}

} // verus!
