//! The order of byte strings, and sorting by it.

use vstd::multiset::*;
use vstd::prelude::*;
use vstd::relations::*;
use vstd::seq_lib::*;

verus! {

/// Whether `a` comes before `b`, byte by byte, a prefix before what it starts.
pub open spec fn lex_less(a: Seq<u8>, b: Seq<u8>) -> bool
    decreases a.len(),
{
    if b.len() == 0 {
        false
    } else if a.len() == 0 {
        true
    } else if a[0] != b[0] {
        a[0] < b[0]
    } else {
        lex_less(a.skip(1), b.skip(1))
    }
}

/// Whether no byte string in `list` comes before one that stands ahead of it.
pub open spec fn lex_sorted(list: Seq<Seq<u8>>) -> bool {
    forall|i: int, j: int|
        0 <= i < j < list.len() ==> !lex_less(#[trigger] list[j], #[trigger] list[i])
}

/// The byte strings that `list` holds.
pub open spec fn byte_views(list: Seq<Vec<u8>>) -> Seq<Seq<u8>> {
    Seq::new(list.len(), |i: int| list[i]@)
}

/// The order passes over equal first bytes.
pub proof fn lemma_lex_less_skip(a: Seq<u8>, b: Seq<u8>, n: int)
    requires
        0 <= n <= a.len(),
        n <= b.len(),
        forall|i: int| 0 <= i < n ==> a[i] == b[i],
    ensures
        lex_less(a, b) == lex_less(a.skip(n), b.skip(n)),
    decreases n,
{
    if n == 0 {
        assert(a.skip(0) =~= a);
        assert(b.skip(0) =~= b);
    } else {
        assert(a[0] == b[0]);
        assert forall|i: int| 0 <= i < n - 1 implies a.skip(1)[i] == b.skip(1)[i] by {
            assert(a[i + 1] == b[i + 1]);
        }
        lemma_lex_less_skip(a.skip(1), b.skip(1), n - 1);
        assert(a.skip(1).skip(n - 1) =~= a.skip(n));
        assert(b.skip(1).skip(n - 1) =~= b.skip(n));
    }
}

/// The first byte that differs decides the order.
pub proof fn lemma_lex_less_at(a: Seq<u8>, b: Seq<u8>, n: int)
    requires
        0 <= n < a.len(),
        n < b.len(),
        forall|i: int| 0 <= i < n ==> a[i] == b[i],
        a[n] < b[n],
    ensures
        lex_less(a, b),
{
    lemma_lex_less_skip(a, b, n);
    assert(a.skip(n)[0] == a[n]);
    assert(b.skip(n)[0] == b[n]);
}

/// A byte string comes before another where the two agree up to some place, at
/// which it ends or has the smaller byte, and nowhere else.
pub proof fn lemma_first_difference_decides(a: Seq<u8>, b: Seq<u8>)
    ensures
        lex_less(a, b) <==> exists|n: int|
            {
                &&& 0 <= n <= a.len()
                &&& n < b.len()
                &&& #[trigger] a.take(n) == b.take(n)
                &&& n < a.len() ==> a[n] < b[n]
            },
    decreases a.len(),
{
    if lex_less(a, b) {
        if a.len() == 0 || a[0] != b[0] {
            assert(a.take(0) =~= b.take(0));
        } else {
            let x = a.skip(1);
            let y = b.skip(1);
            lemma_first_difference_decides(x, y);
            let m = choose|m: int|
                {
                    &&& 0 <= m <= x.len()
                    &&& m < y.len()
                    &&& #[trigger] x.take(m) == y.take(m)
                    &&& m < x.len() ==> x[m] < y[m]
                };
            assert forall|i: int| 0 <= i < m + 1 implies a[i] == b[i] by {
                if i > 0 {
                    assert(x.take(m)[i - 1] == a[i]);
                    assert(y.take(m)[i - 1] == b[i]);
                }
            }
            assert(a.take(m + 1) =~= b.take(m + 1));
            if m < x.len() {
                assert(x[m] == a[m + 1] && y[m] == b[m + 1]);
            }
        }
    }
    if exists|n: int|
        {
            &&& 0 <= n <= a.len()
            &&& n < b.len()
            &&& #[trigger] a.take(n) == b.take(n)
            &&& n < a.len() ==> a[n] < b[n]
        } {
        let n = choose|n: int|
            {
                &&& 0 <= n <= a.len()
                &&& n < b.len()
                &&& #[trigger] a.take(n) == b.take(n)
                &&& n < a.len() ==> a[n] < b[n]
            };
        assert forall|i: int| 0 <= i < n implies a[i] == b[i] by {
            assert(a.take(n)[i] == a[i] && b.take(n)[i] == b[i]);
        }
        lemma_lex_less_skip(a, b, n);
        assert(b.skip(n)[0] == b[n]);
        if n < a.len() {
            assert(a.skip(n)[0] == a[n]);
        }
    }
}

/// No byte string comes before itself.
pub proof fn lemma_lex_irreflexive(a: Seq<u8>)
    ensures
        !lex_less(a, a),
    decreases a.len(),
{
    if a.len() > 0 {
        lemma_lex_irreflexive(a.skip(1));
    }
}

/// Of two different byte strings exactly one comes before the other.
pub proof fn lemma_lex_total(a: Seq<u8>, b: Seq<u8>)
    ensures
        a == b || lex_less(a, b) || lex_less(b, a),
        !(lex_less(a, b) && lex_less(b, a)),
    decreases a.len(),
{
    if a.len() == 0 && b.len() == 0 {
        assert(a =~= b);
    } else if a.len() > 0 && b.len() > 0 && a[0] == b[0] {
        lemma_lex_total(a.skip(1), b.skip(1));
        if a.skip(1) == b.skip(1) {
            assert forall|i: int| 0 <= i < a.len() implies a[i] == b[i] by {
                if i > 0 {
                    assert(a[i] == a.skip(1)[i - 1]);
                    assert(b[i] == b.skip(1)[i - 1]);
                }
            }
            assert(a.len() == a.skip(1).len() + 1);
            assert(b.len() == b.skip(1).len() + 1);
            assert(a =~= b);
        }
    }
}

/// The order is transitive.
pub proof fn lemma_lex_transitive(a: Seq<u8>, b: Seq<u8>, c: Seq<u8>)
    requires
        lex_less(a, b),
        lex_less(b, c),
    ensures
        lex_less(a, c),
    decreases a.len(),
{
    if a.len() > 0 && a[0] == b[0] && b[0] == c[0] {
        lemma_lex_transitive(a.skip(1), b.skip(1), c.skip(1));
    }
}

/// There is one way to sort: sorted lists of the same byte strings are equal.
pub proof fn lemma_sorted_list_is_unique(a: Seq<Seq<u8>>, b: Seq<Seq<u8>>)
    requires
        lex_sorted(a),
        lex_sorted(b),
        a.to_multiset() == b.to_multiset(),
    ensures
        a == b,
{
    let not_after = |x: Seq<u8>, y: Seq<u8>| !lex_less(y, x);
    assert(reflexive(not_after)) by {
        assert forall|x: Seq<u8>| #[trigger] not_after(x, x) by {
            lemma_lex_irreflexive(x);
        }
    }
    assert(antisymmetric(not_after)) by {
        assert forall|x: Seq<u8>, y: Seq<u8>| #[trigger]
            not_after(x, y) && #[trigger] not_after(y, x) implies x == y by {
            lemma_lex_total(x, y);
        }
    }
    assert(transitive(not_after)) by {
        assert forall|x: Seq<u8>, y: Seq<u8>, z: Seq<u8>| #[trigger]
            not_after(x, y) && #[trigger] not_after(y, z) implies not_after(x, z) by {
            lemma_lex_total(x, y);
            lemma_lex_total(y, z);
            if lex_less(z, x) {
                if lex_less(x, y) {
                    lemma_lex_transitive(z, x, y);
                }
            }
        }
    }
    assert(strongly_connected(not_after)) by {
        assert forall|x: Seq<u8>, y: Seq<u8>| #[trigger]
            not_after(x, y) || #[trigger] not_after(y, x) by {
            lemma_lex_total(x, y);
        }
    }
    assert(sorted_by(a, not_after));
    assert(sorted_by(b, not_after));
    lemma_sorted_unique(a, b, not_after);
}

/// Whether `a` comes before `b`.
pub fn bytes_less(a: &[u8], b: &[u8]) -> (less: bool)
    ensures
        less == lex_less(a@, b@),
{
    let mut i: usize = 0;
    while i < a.len() && i < b.len()
        invariant
            i <= a.len(),
            i <= b.len(),
            forall|j: int| 0 <= j < i ==> a@[j] == b@[j],
        decreases a.len() - i,
    {
        if a[i] != b[i] {
            proof {
                lemma_lex_less_skip(a@, b@, i as int);
                assert(a@.skip(i as int)[0] == a@[i as int]);
                assert(b@.skip(i as int)[0] == b@[i as int]);
            }
            return a[i] < b[i];
        }
        i = i + 1;
    }
    proof {
        lemma_lex_less_skip(a@, b@, i as int);
    }
    i < b.len()
}

/// Sorts byte strings into ascending order.
pub fn sort_bytes(list: Vec<Vec<u8>>) -> (sorted: Vec<Vec<u8>>)
    ensures
        lex_sorted(byte_views(sorted@)),
        byte_views(sorted@).to_multiset() == byte_views(list@).to_multiset(),
{
    let ghost all = byte_views(list@);
    let mut rest: Vec<Vec<u8>> = list;
    let mut sorted: Vec<Vec<u8>> = Vec::new();
    proof {
        assert(byte_views(sorted@) =~= Seq::<Seq<u8>>::empty());
        assert(byte_views(rest@) + byte_views(sorted@) =~= all);
    }
    while rest.len() > 0
        invariant
            lex_sorted(byte_views(sorted@)),
            (byte_views(rest@) + byte_views(sorted@)).to_multiset() == all.to_multiset(),
        decreases rest.len(),
    {
        let ghost rest_before = byte_views(rest@);
        let ghost sorted_before = byte_views(sorted@);
        let mut at: usize = sorted.len();
        match rest.pop() {
            Some(next) => {
                let ghost item = next@;
                while at > 0 && bytes_less(next.as_slice(), sorted[at - 1].as_slice())
                    invariant
                        at <= sorted.len(),
                        sorted_before == byte_views(sorted@),
                        item == next@,
                        forall|j: int|
                            at <= j < sorted_before.len() ==> lex_less(
                                item,
                                #[trigger] sorted_before[j],
                            ),
                    decreases at,
                {
                    at = at - 1;
                }
                proof {
                    if at > 0 {
                        assert(sorted_before[at - 1] == sorted@[at - 1]@);
                    }
                }
                sorted.insert(at, next);
                proof {
                    assert(byte_views(sorted@) =~= sorted_before.insert(at as int, item));
                    lemma_insert_keeps_sorted(sorted_before, at as int, item);
                    assert(rest_before =~= byte_views(rest@).push(item));
                    lemma_move_between(byte_views(rest@), sorted_before, at as int, item);
                }
            },
            None => {},
        }
    }
    proof {
        assert(byte_views(rest@) + byte_views(sorted@) =~= byte_views(sorted@));
    }
    sorted
}

/// Inserting an item behind everything that it does not come before keeps a
/// list sorted.
proof fn lemma_insert_keeps_sorted(list: Seq<Seq<u8>>, at: int, item: Seq<u8>)
    requires
        lex_sorted(list),
        0 <= at <= list.len(),
        at > 0 ==> !lex_less(item, list[at - 1]),
        forall|j: int| at <= j < list.len() ==> lex_less(item, #[trigger] list[j]),
    ensures
        lex_sorted(list.insert(at, item)),
{
    let longer = list.insert(at, item);
    assert forall|i: int, j: int| 0 <= i < j < longer.len() implies !lex_less(
        #[trigger] longer[j],
        #[trigger] longer[i],
    ) by {
        if j < at {
            assert(longer[i] == list[i] && longer[j] == list[j]);
        } else if j == at {
            assert(longer[i] == list[i]);
            if i < at - 1 {
                assert(!lex_less(list[at - 1], list[i]));
                if lex_less(item, list[i]) {
                    lemma_lex_total(list[i], list[at - 1]);
                    if lex_less(list[i], list[at - 1]) {
                        lemma_lex_transitive(item, list[i], list[at - 1]);
                    }
                }
            }
        } else if i == at {
            assert(longer[j] == list[j - 1]);
            lemma_lex_total(item, list[j - 1]);
        } else if i > at {
            assert(longer[i] == list[i - 1] && longer[j] == list[j - 1]);
        } else {
            assert(longer[i] == list[i] && longer[j] == list[j - 1]);
        }
    }
}

/// Moving an item from the end of one list into another keeps what the two
/// hold together.
proof fn lemma_move_between(rest: Seq<Seq<u8>>, list: Seq<Seq<u8>>, at: int, item: Seq<u8>)
    requires
        0 <= at <= list.len(),
    ensures
        (rest + list.insert(at, item)).to_multiset() == (rest.push(item) + list).to_multiset(),
{
    broadcast use group_to_multiset_ensures;

    lemma_multiset_commutative(rest, list.insert(at, item));
    lemma_multiset_commutative(rest.push(item), list);
    to_multiset_insert(list, at, item);
    assert((rest + list.insert(at, item)).to_multiset() =~= (rest.push(item)
        + list).to_multiset());
}

} // verus!
