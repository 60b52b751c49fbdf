//! The name index: an ordered, two-way mapping between fully-qualified names
//! and vertex identifiers.

use std::collections::BTreeMap;
use vstd::prelude::*;

use crate::names::{compare, lemma_precedes_total, lemma_precedes_transitive, lemma_prefix_block, precedes, starts_with, NameOrder};

verus! {

broadcast use {
    vstd::std_specs::btree::group_btree_axioms,
    vstd::laws_cmp::group_laws_cmp,
};

/// How many entries a search hands out.
pub const SEARCH_LIMIT: usize = 10;

/// An entry of the index as a plain value: a name and the vertex it names.
pub type Entry = (Seq<char>, u128);

/// The names of `s` stand in strictly increasing order.
pub open spec fn sorted_by_name(s: Seq<Entry>) -> bool {
    forall|i: int, j: int| 0 <= i < j < s.len() ==> precedes(#[trigger] s[i].0, #[trigger] s[j].0)
}

/// No vertex occurs twice in `s`.
pub open spec fn distinct_ids(s: Seq<Entry>) -> bool {
    forall|i: int, j: int| 0 <= i < j < s.len() ==> #[trigger] s[i].1 != #[trigger] s[j].1
}

/// `s` has an entry for `name`.
pub open spec fn has_name(s: Seq<Entry>, name: Seq<char>) -> bool {
    exists|i: int| 0 <= i < s.len() && #[trigger] s[i].0 == name
}

/// `s` has an entry for `id`.
pub open spec fn has_id(s: Seq<Entry>, id: u128) -> bool {
    exists|i: int| 0 <= i < s.len() && #[trigger] s[i].1 == id
}

/// The vertex that `s` enters under `name`.
pub open spec fn find_id(s: Seq<Entry>, name: Seq<char>) -> Option<u128> {
    if has_name(s, name) {
        Some(s[choose|i: int| 0 <= i < s.len() && #[trigger] s[i].0 == name].1)
    } else {
        None
    }
}

/// The name under which `s` enters `id`.
pub open spec fn find_name(s: Seq<Entry>, id: u128) -> Option<Seq<char>> {
    if has_id(s, id) {
        Some(s[choose|i: int| 0 <= i < s.len() && #[trigger] s[i].1 == id].0)
    } else {
        None
    }
}

/// How many names of `s` precede `name`: the place where `name` belongs.
pub open spec fn rank(s: Seq<Entry>, name: Seq<char>) -> int
    decreases s.len(),
{
    if s.len() == 0 {
        0
    } else if precedes(s.last().0, name) {
        rank(s.drop_last(), name) + 1
    } else {
        rank(s.drop_last(), name)
    }
}

/// The place of a name lies within the index, or at its end.
pub proof fn lemma_rank_bounds(s: Seq<Entry>, name: Seq<char>)
    ensures
        0 <= rank(s, name) <= s.len(),
    decreases s.len(),
{
    if s.len() > 0 {
        lemma_rank_bounds(s.drop_last(), name);
    }
}

/// The entries of `s` whose names start with `term`, in the order of `s`.
pub open spec fn matching(s: Seq<Entry>, term: Seq<char>) -> Seq<Entry> {
    s.filter(|e: Entry| term.is_prefix_of(e.0))
}

/// In a sorted index the entry of a name, and that of a vertex, is found at
/// one place only.
pub proof fn lemma_entry_found(s: Seq<Entry>, i: int)
    requires
        sorted_by_name(s),
        distinct_ids(s),
        0 <= i < s.len(),
    ensures
        find_id(s, s[i].0) == Some(s[i].1),
        find_name(s, s[i].1) == Some(s[i].0),
{
}

/// The place of a name in a sorted index: every entry before it precedes
/// the name, and no entry from it on does.
pub proof fn lemma_rank_is_place(s: Seq<Entry>, name: Seq<char>, pos: int)
    requires
        0 <= pos <= s.len(),
        forall|i: int| 0 <= i < pos ==> precedes(#[trigger] s[i].0, name),
        forall|i: int| pos <= i < s.len() ==> !precedes(#[trigger] s[i].0, name),
    ensures
        rank(s, name) == pos,
    decreases s.len(),
{
    if s.len() > 0 {
        let rest = s.drop_last();
        if pos == s.len() {
            lemma_rank_is_place(rest, name, pos - 1);
        } else {
            lemma_rank_is_place(rest, name, pos);
        }
    }
}

/// Entering a new name at its place keeps the index sorted, and changes
/// what is found for that name and that vertex only.
pub proof fn lemma_insert_entry(s: Seq<Entry>, name: Seq<char>, id: u128, pos: int)
    requires
        sorted_by_name(s),
        distinct_ids(s),
        !has_name(s, name),
        !has_id(s, id),
        0 <= pos <= s.len(),
        forall|i: int| 0 <= i < pos ==> precedes(#[trigger] s[i].0, name),
        forall|i: int| pos <= i < s.len() ==> !precedes(#[trigger] s[i].0, name),
    ensures
        sorted_by_name(s.insert(pos, (name, id))),
        distinct_ids(s.insert(pos, (name, id))),
        forall|n: Seq<char>|
            #[trigger] find_id(s.insert(pos, (name, id)), n) == if n == name {
                Some(id)
            } else {
                find_id(s, n)
            },
        forall|x: u128|
            #[trigger] find_name(s.insert(pos, (name, id)), x) == if x == id {
                Some(name)
            } else {
                find_name(s, x)
            },
{
    let t = s.insert(pos, (name, id));
    assert forall|i: int, j: int| 0 <= i < j < t.len() implies precedes(
        #[trigger] t[i].0,
        #[trigger] t[j].0,
    ) by {
        if i == pos {
            lemma_precedes_total(s[j - 1].0, name);
        }
    }
    assert forall|n: Seq<char>| #[trigger] find_id(t, n) == if n == name {
        Some(id)
    } else {
        find_id(s, n)
    } by {
        if n == name {
            lemma_entry_found(t, pos);
        } else if has_name(s, n) {
            let i = choose|i: int| 0 <= i < s.len() && #[trigger] s[i].0 == n;
            let k = if i < pos { i } else { i + 1 };
            lemma_entry_found(t, k);
        } else if has_name(t, n) {
        }
    }
    assert forall|x: u128| #[trigger] find_name(t, x) == if x == id {
        Some(name)
    } else {
        find_name(s, x)
    } by {
        if x == id {
            lemma_entry_found(t, pos);
        } else if has_id(s, x) {
            let i = choose|i: int| 0 <= i < s.len() && #[trigger] s[i].1 == x;
            let k = if i < pos { i } else { i + 1 };
            lemma_entry_found(t, k);
        } else if has_id(t, x) {
        }
    }
}

/// Where the entries before `pos` do not match a term and those from `pos`
/// up to `i` all do, the matching entries among the first `i` are those from
/// `pos` on.
pub proof fn lemma_matching_block(s: Seq<Entry>, term: Seq<char>, pos: int, i: int)
    requires
        0 <= pos <= i <= s.len(),
        forall|k: int| 0 <= k < pos ==> !term.is_prefix_of(#[trigger] s[k].0),
        forall|k: int| pos <= k < i ==> term.is_prefix_of(#[trigger] s[k].0),
    ensures
        matching(s.take(i), term) == s.subrange(pos, i),
    decreases i,
{
    let pred = |e: Entry| term.is_prefix_of(e.0);
    if i > 0 {
        assert(s.take(i) =~= s.take(i - 1).push(s[i - 1]));
        s.take(i - 1).lemma_filter_push(s[i - 1], pred);
        if pos == i {
            lemma_matching_block(s, term, pos - 1, i - 1);
        } else {
            lemma_matching_block(s, term, pos, i - 1);
        }
    }
}

/// Entries that do not match a term add nothing to the matching ones.
pub proof fn lemma_matching_rest(s: Seq<Entry>, term: Seq<char>, i: int)
    requires
        0 <= i <= s.len(),
        forall|k: int| i <= k < s.len() ==> !term.is_prefix_of(#[trigger] s[k].0),
    ensures
        matching(s, term) == matching(s.take(i), term),
    decreases s.len() - i,
{
    let pred = |e: Entry| term.is_prefix_of(e.0);
    if i == s.len() {
        assert(s.take(i) =~= s);
    } else {
        let rest = s.drop_last();
        assert(s =~= rest.push(s.last()));
        rest.lemma_filter_push(s.last(), pred);
        lemma_matching_rest(rest, term, i);
        assert(rest.take(i) =~= s.take(i));
    }
}

/// The matching entries among the first `i` come first among all matching
/// entries.
pub proof fn lemma_matching_prefix(s: Seq<Entry>, term: Seq<char>, i: int)
    requires
        0 <= i <= s.len(),
    ensures
        matching(s.take(i), term).len() <= matching(s, term).len(),
        matching(s, term).take(matching(s.take(i), term).len() as int) == matching(
            s.take(i),
            term,
        ),
{
    assert(s =~= s.take(i) + s.skip(i));
}

/// Why a name cannot be entered.
#[derive(Clone, Copy, Debug, PartialEq, Eq, Structural)]
pub enum IndexError {
    /// The name is already entered for another vertex.
    NameTaken,
    /// The vertex is already entered under another name.
    VertexTaken,
}

/// An ordered, two-way mapping between names and vertices.
pub struct NameIndex {
    by_name: Vec<(String, u128)>,
    by_id: BTreeMap<u128, String>,
}

impl View for NameIndex {
    type V = Seq<Entry>;

    /// The entries in the order of their names. In a well-formed index the
    /// lookup by vertex holds the same pairs, so nothing is left out.
    closed spec fn view(&self) -> Seq<Entry> {
        self.by_name.deep_view()
    }
}

impl NameIndex {
    /// The entries are sorted by name, and the two directions hold the same
    /// pairs.
    pub closed spec fn wf(&self) -> bool {
        &&& sorted_by_name(self@)
        &&& forall|i: int|
            0 <= i < self@.len() ==> {
                &&& self.by_id@.contains_key(#[trigger] self@[i].1)
                &&& self.by_id@[self@[i].1]@ == self@[i].0
            }
        &&& forall|id: u128| self.by_id@.contains_key(id) ==> has_id(self@, id)
    }

    /// The vertex entered under `name`.
    pub open spec fn id_of(&self, name: Seq<char>) -> Option<u128> {
        find_id(self@, name)
    }

    /// The name under which `id` is entered.
    pub open spec fn name_of(&self, id: u128) -> Option<Seq<char>> {
        find_name(self@, id)
    }

    /// A well-formed index is sorted by name and enters no vertex twice: it
    /// is a bijection between its names and its vertices.
    pub proof fn lemma_bijection(&self)
        requires
            self.wf(),
        ensures
            sorted_by_name(self@),
            distinct_ids(self@),
            forall|i: int|
                0 <= i < self@.len() ==> {
                    &&& self.id_of(#[trigger] self@[i].0) == Some(self@[i].1)
                    &&& self.name_of(self@[i].1) == Some(self@[i].0)
                },
            forall|n: Seq<char>, x: u128|
                self.id_of(n) == Some(x) <==> self.name_of(x) == Some(n),
    {
    }

    /// An index without entries.
    pub fn new() -> (index: NameIndex)
        ensures
            index.wf(),
            index@ == Seq::<Entry>::empty(),
    {
        let index = NameIndex { by_name: Vec::new(), by_id: BTreeMap::new() };
        index
    }

    /// The number of entries.
    pub fn len(&self) -> (n: usize)
        ensures
            n == self@.len(),
    {
        self.by_name.len()
    }

    /// The place where `name` stands or belongs.
    fn place(&self, name: &str) -> (pos: usize)
        requires
            self.wf(),
        ensures
            pos <= self@.len(),
            pos == rank(self@, name@),
            forall|i: int| 0 <= i < pos ==> precedes(#[trigger] self@[i].0, name@),
            forall|i: int| pos <= i < self@.len() ==> !precedes(#[trigger] self@[i].0, name@),
    {
        let mut lo: usize = 0;
        let mut hi: usize = self.by_name.len();
        while lo < hi
            invariant
                self.wf(),
                0 <= lo <= hi <= self@.len(),
                self@.len() == self.by_name.len(),
                forall|i: int| 0 <= i < lo ==> precedes(#[trigger] self@[i].0, name@),
                forall|i: int| hi <= i < self@.len() ==> !precedes(#[trigger] self@[i].0, name@),
            decreases hi - lo,
        {
            let mid = lo + (hi - lo) / 2;
            match compare(self.by_name[mid].0.as_str(), name) {
                NameOrder::Before => {
                    assert forall|i: int| 0 <= i < mid + 1 implies precedes(
                        #[trigger] self@[i].0,
                        name@,
                    ) by {
                        if i < mid {
                            lemma_precedes_transitive(self@[i].0, self@[mid as int].0, name@);
                        }
                    }
                    lo = mid + 1;
                },
                _ => {
                    assert forall|i: int| mid <= i < self@.len() implies !precedes(
                        #[trigger] self@[i].0,
                        name@,
                    ) by {
                        if mid < i && precedes(self@[i].0, name@) {
                            lemma_precedes_transitive(self@[mid as int].0, self@[i].0, name@);
                        }
                    }
                    hi = mid;
                },
            }
        }
        proof {
            lemma_rank_is_place(self@, name@, lo as int);
        }
        lo
    }

    /// The vertex entered under `name`, if there is one.
    pub fn lookup_id(&self, name: &str) -> (found: Option<u128>)
        requires
            self.wf(),
        ensures
            found == self.id_of(name@),
    {
        let pos = self.place(name);
        if pos < self.by_name.len() {
            assert(self@[pos as int].0 == self.by_name[pos as int].0@);
            match compare(self.by_name[pos].0.as_str(), name) {
                NameOrder::Same => {
                    return Some(self.by_name[pos].1);
                },
                _ => {},
            }
        }
        None
    }

    /// Whether `name` is entered.
    pub fn contains_name(&self, name: &str) -> (found: bool)
        requires
            self.wf(),
        ensures
            found == self.id_of(name@).is_some(),
    {
        self.lookup_id(name).is_some()
    }

    /// The name under which `id` is entered, if there is one.
    pub fn lookup_name(&self, id: u128) -> (found: Option<&String>)
        requires
            self.wf(),
        ensures
            match found {
                Some(name) => self.name_of(id) == Some(name@),
                None => self.name_of(id).is_none(),
            },
    {
        let found = self.by_id.get(&id);
        found
    }

    /// Enters `name` for `id`. Entering a pair that is already there changes
    /// nothing; a name or a vertex that is entered otherwise is refused.
    pub fn insert(&mut self, name: String, id: u128) -> (done: Result<(), IndexError>)
        requires
            old(self).wf(),
        ensures
            final(self).wf(),
            match done {
                Ok(()) => {
                    &&& old(self).id_of(name@) == Some(id) || (old(self).id_of(name@).is_none()
                        && old(self).name_of(id).is_none())
                    &&& final(self)@ == if old(self).id_of(name@).is_some() {
                        old(self)@
                    } else {
                        old(self)@.insert(rank(old(self)@, name@), (name@, id))
                    }
                    &&& forall|n: Seq<char>|
                        #[trigger] find_id(final(self)@, n) == if n == name@ {
                            Some(id)
                        } else {
                            find_id(old(self)@, n)
                        }
                    &&& forall|x: u128|
                        #[trigger] find_name(final(self)@, x) == if x == id {
                            Some(name@)
                        } else {
                            find_name(old(self)@, x)
                        }
                },
                Err(IndexError::NameTaken) => {
                    &&& old(self).id_of(name@).is_some()
                    &&& old(self).id_of(name@) != Some(id)
                    &&& final(self)@ == old(self)@
                },
                Err(IndexError::VertexTaken) => {
                    &&& old(self).id_of(name@).is_none()
                    &&& old(self).name_of(id).is_some()
                    &&& final(self)@ == old(self)@
                },
            },
    {
        match self.lookup_id(name.as_str()) {
            Some(entered) => {
                if entered == id {
                    Ok(())
                } else {
                    Err(IndexError::NameTaken)
                }
            },
            None => {
                if self.lookup_name(id).is_some() {
                    return Err(IndexError::VertexTaken);
                }
                let pos = self.place(name.as_str());
                let ghost before = self@;
                proof {
                    lemma_insert_entry(before, name@, id, pos as int);
                }
                let copy = name.clone();
                self.by_id.insert(id, copy);
                self.by_name.insert(pos, (name, id));
                proof {
                    let after = self@;
                    assert(after =~= before.insert(pos as int, (name@, id)));
                    assert forall|x: u128| self.by_id@.contains_key(x) implies has_id(after, x) by {
                        if x == id {
                            assert(after[pos as int].1 == id);
                        } else {
                            assert(has_id(before, x));
                            let i = choose|i: int|
                                0 <= i < before.len() && #[trigger] before[i].1 == x;
                            let k = if i < pos { i } else { i + 1 };
                            assert(after[k] == before[i]);
                        }
                    }
                }
                Ok(())
            },
        }
    }

    /// All entries, in the order of their names.
    pub fn get_all(&self) -> (all: Vec<(String, u128)>)
        ensures
            all.deep_view() == self@,
    {
        let mut all: Vec<(String, u128)> = Vec::new();
        let mut i: usize = 0;
        while i < self.by_name.len()
            invariant
                0 <= i <= self.by_name.len(),
                all.deep_view() == self@.take(i as int),
            decreases self.by_name.len() - i,
        {
            let ghost before = all.deep_view();
            all.push((self.by_name[i].0.clone(), self.by_name[i].1));
            assert(all.deep_view() =~= before.push(self@[i as int]));
            i = i + 1;
        }
        assert(self@.take(i as int) =~= self@);
        all
    }

    /// The first `limit` entries, in the order of their names, whose names
    /// start with `term`.
    pub fn search_prefix(&self, term: &str, limit: usize) -> (found: Vec<(String, u128)>)
        requires
            self.wf(),
        ensures
            found.len() <= limit,
            found.len() <= matching(self@, term@).len(),
            found.len() == limit || found.len() == matching(self@, term@).len(),
            found.deep_view() == matching(self@, term@).take(found.len() as int),
    {
        let start = self.place(term);
        let mut found: Vec<(String, u128)> = Vec::new();
        let mut i: usize = start;
        while i < self.by_name.len() && found.len() < limit
            invariant
                self.wf(),
                start <= i <= self.by_name.len() == self@.len(),
                found.len() == i - start,
                found.len() <= limit,
                found.deep_view() == self@.subrange(start as int, i as int),
                forall|k: int| 0 <= k < start ==> !term@.is_prefix_of(#[trigger] self@[k].0),
                forall|k: int| start <= k < i ==> term@.is_prefix_of(#[trigger] self@[k].0),
                forall|k: int| start <= k < self@.len() ==> !precedes(#[trigger] self@[k].0, term@),
            decreases self.by_name.len() - i,
        {
            if !starts_with(self.by_name[i].0.as_str(), term) {
                proof {
                    // Past the first name that does not start with the term
                    // no name does.
                    assert forall|k: int| i <= k < self@.len() implies !term@.is_prefix_of(
                        #[trigger] self@[k].0,
                    ) by {
                        if i < k && term@.is_prefix_of(self@[k].0) {
                            lemma_precedes_total(term@, self@[i as int].0);
                            lemma_prefix_block(term@, term@, self@[i as int].0, self@[k].0);
                        }
                    }
                    lemma_matching_rest(self@, term@, i as int);
                    lemma_matching_block(self@, term@, start as int, i as int);
                }
                return found;
            }
            found.push((self.by_name[i].0.clone(), self.by_name[i].1));
            i = i + 1;
        }
        proof {
            lemma_matching_block(self@, term@, start as int, i as int);
            lemma_matching_prefix(self@, term@, i as int);
            if i == self@.len() {
                assert(self@.take(i as int) =~= self@);
            }
        }
        found
    }

    /// The first ten entries, in the order of their names, whose names start
    /// with `term`.
    pub fn search(&self, term: &str) -> (found: Vec<(String, u128)>)
        requires
            self.wf(),
        ensures
            found.len() <= SEARCH_LIMIT,
            found.len() <= matching(self@, term@).len(),
            found.len() == SEARCH_LIMIT || found.len() == matching(self@, term@).len(),
            found.deep_view() == matching(self@, term@).take(found.len() as int),
    {
        self.search_prefix(term, SEARCH_LIMIT)
    }
}

} // verus!
