//! Names as sequences of characters: their order, their prefixes, and the
//! delimiter that makes a name hierarchical.

use vstd::prelude::*;
use vstd::std_specs::iter::IteratorSpec;
use vstd::string::StrSliceExecFns;

verus! {

/// Separates the levels of a fully-qualified name.
pub const DELIMITER: char = ':';

/// `a` and `b` agree on their first `k` characters, and `a` either ends
/// there while `b` goes on, or continues with a smaller character.
pub open spec fn parts_at(a: Seq<char>, b: Seq<char>, k: int) -> bool {
    &&& 0 <= k <= a.len()
    &&& k < b.len()
    &&& a.take(k) == b.take(k)
    &&& k < a.len() ==> a[k] < b[k]
}

/// `a` comes strictly before `b` in the lexicographic order of code points.
pub open spec fn precedes(a: Seq<char>, b: Seq<char>) -> bool {
    exists|k: int| parts_at(a, b, k)
}

/// The outcome of comparing two names.
#[derive(Clone, Copy, Debug, PartialEq, Eq, Structural)]
pub enum NameOrder {
    Before,
    Same,
    After,
}

/// What `compare` answers for two names.
pub open spec fn order_of(a: Seq<char>, b: Seq<char>) -> NameOrder {
    if a == b {
        NameOrder::Same
    } else if precedes(a, b) {
        NameOrder::Before
    } else {
        NameOrder::After
    }
}

/// Two names that part at some position differ, and part nowhere the other
/// way round.
pub proof fn lemma_precedes_asymmetric(a: Seq<char>, b: Seq<char>)
    requires
        precedes(a, b),
    ensures
        a != b,
        !precedes(b, a),
{
    let k = choose|k: int| parts_at(a, b, k);
    if precedes(b, a) {
        let j = choose|j: int| parts_at(b, a, j);
        if j < k {
            assert(a.take(k)[j] == b.take(k)[j]);
        } else if k < j {
            assert(a.take(j)[k] == b.take(j)[k]);
        }
    }
}

/// The order is transitive.
pub proof fn lemma_precedes_transitive(a: Seq<char>, b: Seq<char>, c: Seq<char>)
    requires
        precedes(a, b),
        precedes(b, c),
    ensures
        precedes(a, c),
{
    let j = choose|j: int| parts_at(a, b, j);
    let k = choose|k: int| parts_at(b, c, k);
    let m = if j <= k { j } else { k };
    assert(a.take(m) =~= c.take(m));
    if j < k {
        assert(b.take(k)[j] == c.take(k)[j]);
    } else if k < j {
        assert(a.take(j)[k] == b.take(j)[k]);
    }
    assert(parts_at(a, c, m));
}

/// Of two different names one precedes the other.
pub proof fn lemma_precedes_total(a: Seq<char>, b: Seq<char>)
    ensures
        a == b || precedes(a, b) || precedes(b, a),
    decreases a.len(),
{
    if a.len() == 0 {
        if b.len() > 0 {
            assert(a.take(0) =~= b.take(0));
            assert(parts_at(a, b, 0));
        } else {
            assert(a =~= b);
        }
    } else if b.len() == 0 {
        assert(a.take(0) =~= b.take(0));
        assert(parts_at(b, a, 0));
    } else if a.first() != b.first() {
        assert(a.take(0) =~= b.take(0));
        if a[0] < b[0] {
            assert(parts_at(a, b, 0));
        } else {
            assert(parts_at(b, a, 0));
        }
    } else {
        let x = a.drop_first();
        let y = b.drop_first();
        lemma_precedes_total(x, y);
        if x == y {
            assert(a =~= seq![a.first()] + x);
            assert(b =~= seq![b.first()] + y);
        } else if precedes(x, y) {
            let k = choose|k: int| parts_at(x, y, k);
            lemma_parts_after_first(a, b, k);
        } else {
            let k = choose|k: int| parts_at(y, x, k);
            lemma_parts_after_first(b, a, k);
        }
    }
}

proof fn lemma_parts_after_first(a: Seq<char>, b: Seq<char>, k: int)
    requires
        a.len() > 0,
        b.len() > 0,
        a.first() == b.first(),
        parts_at(a.drop_first(), b.drop_first(), k),
    ensures
        parts_at(a, b, k + 1),
{
    let x = a.drop_first();
    let y = b.drop_first();
    assert(a.take(k + 1) =~= b.take(k + 1)) by {
        assert forall|i: int| 0 <= i < k + 1 implies a[i] == b[i] by {
            if i > 0 {
                assert(x.take(k)[i - 1] == y.take(k)[i - 1]);
            }
        }
    }
}

/// Between two names that start with `t`, every name starts with `t`.
pub proof fn lemma_prefix_block(t: Seq<char>, a: Seq<char>, b: Seq<char>, c: Seq<char>)
    requires
        t.is_prefix_of(a),
        t.is_prefix_of(c),
        a == b || precedes(a, b),
        b == c || precedes(b, c),
    ensures
        t.is_prefix_of(b),
{
    let n = t.len() as int;
    if a != b && b != c {
        let j = choose|j: int| parts_at(a, b, j);
        let k = choose|k: int| parts_at(b, c, k);
        if j < n {
            // `b` leaves `a`, and so `t`, upwards at `j`; then it cannot
            // come back down to `c`, which agrees with `t` there.
            assert(a.take(n)[j] == t[j]);
            if k < j {
                assert(a.take(j)[k] == b.take(j)[k]);
            }
        }
    }
}

/// Compares two names character by character.
pub fn compare(a: &str, b: &str) -> (o: NameOrder)
    ensures
        o == order_of(a@, b@),
{
    broadcast use vstd::string::group_string_axioms;

    let mut x = a.chars();
    let mut y = b.chars();
    let ghost mut i: int = 0;
    loop
        invariant
            0 <= i <= a@.len(),
            i <= b@.len(),
            x.obeys_prophetic_iter_laws(),
            y.obeys_prophetic_iter_laws(),
            x.remaining() == a@.skip(i),
            y.remaining() == b@.skip(i),
            a@.take(i) == b@.take(i),
        decreases a@.len() - i,
    {
        match (x.next(), y.next()) {
            (None, None) => {
                proof {
                    assert(a@.take(i) == a@);
                    assert(b@.take(i) == b@);
                }
                return NameOrder::Same;
            },
            (None, Some(_)) => {
                proof {
                    assert(parts_at(a@, b@, i));
                }
                return NameOrder::Before;
            },
            (Some(_), None) => {
                proof {
                    assert(parts_at(b@, a@, i));
                    lemma_precedes_asymmetric(b@, a@);
                }
                return NameOrder::After;
            },
            (Some(p), Some(q)) => {
                if p < q {
                    proof {
                        assert(parts_at(a@, b@, i));
                    }
                    return NameOrder::Before;
                }
                if q < p {
                    proof {
                        assert(parts_at(b@, a@, i));
                        lemma_precedes_asymmetric(b@, a@);
                    }
                    return NameOrder::After;
                }
                proof {
                    i = i + 1;
                }
            },
        }
    }
}

/// Whether two names are the same.
pub fn same(a: &str, b: &str) -> (r: bool)
    ensures
        r == (a@ == b@),
{
    match compare(a, b) {
        NameOrder::Same => true,
        _ => false,
    }
}

/// Whether `name` starts with `term`.
pub fn starts_with(name: &str, term: &str) -> (r: bool)
    ensures
        r == term@.is_prefix_of(name@),
{
    broadcast use vstd::string::group_string_axioms;

    let mut n = name.chars();
    let mut t = term.chars();
    let ghost mut i: int = 0;
    loop
        invariant
            0 <= i <= name@.len(),
            i <= term@.len(),
            n.obeys_prophetic_iter_laws(),
            t.obeys_prophetic_iter_laws(),
            n.remaining() == name@.skip(i),
            t.remaining() == term@.skip(i),
            name@.take(i) == term@.take(i),
        decreases name@.len() - i,
    {
        match t.next() {
            None => {
                return true;
            },
            Some(tc) => {
                match n.next() {
                    None => {
                        return false;
                    },
                    Some(nc) => {
                        if nc != tc {
                            return false;
                        }
                        proof {
                            i = i + 1;
                        }
                    },
                }
            },
        }
    }
}

/// Position `i` of `name` holds a delimiter.
pub open spec fn is_cut(name: Seq<char>, i: int) -> bool {
    0 <= i < name.len() && name[i] == DELIMITER
}

/// The positions of the delimiters among the first `n` characters of
/// `name`, in increasing order.
pub open spec fn cuts_below(name: Seq<char>, n: int) -> Seq<int>
    decreases n,
{
    if n <= 0 {
        Seq::empty()
    } else if is_cut(name, n - 1) {
        cuts_below(name, n - 1).push(n - 1)
    } else {
        cuts_below(name, n - 1)
    }
}

/// The positions of all delimiters of `name`, in increasing order.
pub open spec fn cuts_of(name: Seq<char>) -> Seq<int> {
    cuts_below(name, name.len() as int)
}

/// The position of the last delimiter of `name`, or -1 where it has none.
pub open spec fn last_cut(name: Seq<char>) -> int {
    let cuts = cuts_of(name);
    if cuts.len() == 0 {
        -1
    } else {
        cuts.last()
    }
}

/// The name one level up: what stands before the last delimiter.
pub open spec fn parent_of(name: Seq<char>) -> Option<Seq<char>> {
    if last_cut(name) < 0 {
        None
    } else {
        Some(name.take(last_cut(name)))
    }
}

/// A parent is shorter than its name.
pub proof fn lemma_parent_shorter(name: Seq<char>)
    ensures
        parent_of(name) matches Some(parent) ==> parent.len() < name.len(),
{
    lemma_cuts_below(name, name.len() as int);
}

/// The list of cuts holds exactly the delimiter positions, in increasing
/// order.
pub proof fn lemma_cuts_below(name: Seq<char>, n: int)
    requires
        n <= name.len(),
    ensures
        forall|k: int|
            0 <= k < cuts_below(name, n).len() ==> {
                &&& is_cut(name, #[trigger] cuts_below(name, n)[k])
                &&& cuts_below(name, n)[k] < n
            },
        forall|j: int, k: int|
            0 <= j < k < cuts_below(name, n).len() ==> cuts_below(name, n)[j] < cuts_below(
                name,
                n,
            )[k],
        forall|i: int| 0 <= i < n && is_cut(name, i) ==> cuts_below(name, n).contains(i),
    decreases n,
{
    if n > 0 {
        lemma_cuts_below(name, n - 1);
        let before = cuts_below(name, n - 1);
        let now = cuts_below(name, n);
        assert forall|i: int| 0 <= i < n && is_cut(name, i) implies now.contains(i) by {
            if i < n - 1 {
                let k = choose|k: int| 0 <= k < before.len() && before[k] == i;
                assert(now[k] == i);
            } else {
                assert(now[now.len() - 1] == i);
            }
        }
    }
}

/// Cutting a name at one of its delimiters keeps the cuts before it.
pub proof fn lemma_cuts_of_prefix(name: Seq<char>, n: int, m: int)
    requires
        0 <= n <= m <= name.len(),
    ensures
        cuts_below(name.take(m), n) == cuts_below(name, n),
    decreases n,
{
    if n > 0 {
        lemma_cuts_of_prefix(name, n - 1, m);
    }
}

/// The prefix that ends before the `k`-th delimiter has the prefix before the
/// delimiter in front of it as its parent, and none where `k` is 0.
pub proof fn lemma_parent_of_prefix(name: Seq<char>, k: int)
    requires
        0 <= k < cuts_of(name).len(),
    ensures
        parent_of(name.take(cuts_of(name)[k])) == if k == 0 {
            None
        } else {
            Some(name.take(cuts_of(name)[k - 1]))
        },
{
    let cuts = cuts_of(name);
    let c = cuts[k];
    lemma_cuts_below(name, name.len() as int);
    lemma_cuts_of_prefix(name, c, c);
    lemma_cuts_split(name, name.len() as int, k);
}

/// The cuts below the `k`-th cut are the first `k` cuts.
proof fn lemma_cuts_split(name: Seq<char>, n: int, k: int)
    requires
        n <= name.len(),
        0 <= k < cuts_below(name, n).len(),
    ensures
        cuts_below(name, cuts_below(name, n)[k]) == cuts_below(name, n).take(k),
    decreases n,
{
    if n > 0 {
        let now = cuts_below(name, n);
        if !is_cut(name, n - 1) || k < now.len() - 1 {
            lemma_cuts_split(name, n - 1, k);
        }
    }
}

/// The positions of the delimiters of `name`, in increasing order.
pub fn cuts(name: &str) -> (r: Vec<usize>)
    ensures
        r@.map_values(|c: usize| c as int) == cuts_of(name@),
{
    broadcast use vstd::string::group_string_axioms;

    let len = name.unicode_len();
    let mut found: Vec<usize> = Vec::new();
    let mut it = name.chars();
    let mut i: usize = 0;
    loop
        invariant
            0 <= i <= name@.len() == len,
            it.obeys_prophetic_iter_laws(),
            it.remaining() == name@.skip(i as int),
            found@.map_values(|c: usize| c as int) == cuts_below(name@, i as int),
        decreases name@.len() - i,
    {
        match it.next() {
            None => {
                return found;
            },
            Some(c) => {
                let ghost before = found@;
                if c == DELIMITER {
                    found.push(i);
                    assert(found@.map_values(|c: usize| c as int) =~= before.map_values(
                        |c: usize| c as int,
                    ).push(i as int));
                }
                i = i + 1;
            },
        }
    }
}

/// The first `n` characters of `name`.
pub fn prefix(name: &str, n: usize) -> (r: String)
    requires
        n <= name@.len(),
    ensures
        r@ == name@.take(n as int),
{
    name.substring_char(0, n).to_owned()
}

} // verus!
