//! An index of vertices by set and key: each named set holds vertices under
//! keys of bytes.

use vstd::prelude::*;
use vstd::slice::slice_to_vec;

use crate::kinds::VertexKind;
use crate::names::same;

verus! {

/// Where a vertex is entered: the name of a set, and a key within the set.
pub struct IndexKey<'a, 'b> {
    pub set_name: &'a str,
    pub key: &'b [u8],
}

/// A place of the index as a plain value.
pub type Place = (Seq<char>, Seq<u8>);

impl<'a, 'b> IndexKey<'a, 'b> {
    pub fn new(set_name: &'a str, key: &'b [u8]) -> (place: Self)
        ensures
            place.set_name == set_name,
            place.key == key,
    {
        IndexKey { set_name, key }
    }

    /// The place as a plain value.
    pub open spec fn place(&self) -> Place {
        (self.set_name@, self.key@)
    }
}

/// Asks for the vertex of a name, of the given kind where it is new.
#[derive(Clone, Debug)]
pub struct InternVert(pub VertexKind, pub String);

/// Vertices by set and key.
pub struct Index {
    entries: Vec<(String, Vec<u8>, u128)>,
}

/// Whether two keys hold the same bytes.
fn same_bytes(a: &[u8], b: &[u8]) -> (r: bool)
    ensures
        r == (a@ == b@),
{
    if a.len() != b.len() {
        return false;
    }
    let mut i: usize = 0;
    while i < a.len()
        invariant
            0 <= i <= a.len() == b.len(),
            a@.take(i as int) == b@.take(i as int),
        decreases a.len() - i,
    {
        if a[i] != b[i] {
            return false;
        }
        i = i + 1;
    }
    assert(a@.take(i as int) =~= a@);
    assert(b@.take(i as int) =~= b@);
    true
}

impl Index {
    /// The place of the entry at `i`.
    closed spec fn place_at(&self, i: int) -> Place {
        (self.entries[i].0@, self.entries[i].1@)
    }

    /// Some entry is at `place`.
    closed spec fn holds(&self, place: Place) -> bool {
        exists|i: int| 0 <= i < self.entries.len() && #[trigger] self.place_at(i) == place
    }

    /// No place is entered twice.
    pub closed spec fn wf(&self) -> bool {
        forall|i: int, j: int|
            0 <= i < j < self.entries.len() ==> #[trigger] self.place_at(i) != #[trigger] self.place_at(
                j,
            )
    }

    /// Where the entry of `key` stands, if there is one.
    fn find(&self, key: &IndexKey) -> (found: Option<usize>)
        ensures
            match found {
                Some(i) => i < self.entries.len() && self.place_at(i as int) == key.place(),
                None => !self.holds(key.place()),
            },
    {
        let mut i: usize = 0;
        while i < self.entries.len()
            invariant
                0 <= i <= self.entries.len(),
                forall|j: int| 0 <= j < i ==> #[trigger] self.place_at(j) != key.place(),
            decreases self.entries.len() - i,
        {
            if same(self.entries[i].0.as_str(), key.set_name) && same_bytes(
                self.entries[i].1.as_slice(),
                key.key,
            ) {
                return Some(i);
            }
            i = i + 1;
        }
        None
    }

    /// An index without entries.
    pub fn new() -> (index: Self)
        ensures
            index.wf(),
            index@ == Map::<Place, u128>::empty(),
    {
        let index = Index { entries: Vec::new() };
        index
    }

    /// The vertex at `key`; where there is none yet, the one that `default`
    /// makes, which is entered there.
    pub fn get_or_insert_with<F: FnOnce() -> u128>(&mut self, key: &IndexKey, default: F) -> (vertex:
        u128)
        requires
            old(self).wf(),
            default.requires(()),
        ensures
            final(self).wf(),
            match old(self)@.get(key.place()) {
                Some(entered) => vertex == entered && final(self)@ == old(self)@,
                None => default.ensures((), vertex) && final(self)@ == old(self)@.insert(
                    key.place(),
                    vertex,
                ),
            },
    {
        match self.find(key) {
            Some(i) => {
                self.entries[i].2
            },
            None => {
                let vertex = default();
                let ghost before = *self;
                self.entries.push((key.set_name.to_owned(), slice_to_vec(key.key), vertex));
                proof {
                    let last = self.entries.len() - 1;
                    assert forall|i: int| 0 <= i < last implies self.place_at(i) == before.place_at(
                        i,
                    ) && self.entries[i].2 == before.entries[i].2 by {}
                    assert(self.wf()) by {
                        assert forall|i: int, j: int|
                            0 <= i < j < self.entries.len() implies #[trigger] self.place_at(i)
                            != #[trigger] self.place_at(j) by {
                            if j == last {
                                assert(before.place_at(i) != key.place());
                            } else {
                                assert(before.place_at(i) != before.place_at(j));
                            }
                        }
                    }
                    self.lemma_entry(last);
                    assert forall|place: Place| #[trigger]
                        self@.contains_key(place) <==> before@.insert(
                            key.place(),
                            vertex,
                        ).contains_key(place) by {
                        if self.holds(place) && place != key.place() {
                            let i = choose|i: int|
                                0 <= i < self.entries.len() && #[trigger] self.place_at(i) == place;
                            assert(before.place_at(i) == place);
                        }
                    }
                }
                vertex
            },
        }
    }

    /// The vertex at `key`, if there is one.
    pub fn get(&self, key: &IndexKey) -> (vertex: Option<u128>)
        requires
            self.wf(),
        ensures
            vertex == self@.get(key.place()),
    {
        match self.find(key) {
            Some(i) => {
                Some(self.entries[i].2)
            },
            None => None,
        }
    }

    /// The entry at `i` is what the index holds at its place.
    proof fn lemma_entry(&self, i: int)
        requires
            self.wf(),
            0 <= i < self.entries.len(),
        ensures
            self@.contains_key(self.place_at(i)),
            self@[self.place_at(i)] == self.entries[i].2,
    {
    }
}

impl View for Index {
    type V = Map<Place, u128>;

    /// The vertex at each place that is entered.
    closed spec fn view(&self) -> Map<Place, u128> {
        Map::new(
            |place: Place| self.holds(place),
            |place: Place|
                self.entries[choose|i: int|
                    0 <= i < self.entries.len() && #[trigger] self.place_at(i) == place].2,
        )
    }
}

} // verus!
