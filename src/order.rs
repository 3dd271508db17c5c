//! Orders on positions and on lists of them, and the sorted listing of a set.
use crate::castle::Pos;
use vstd::prelude::*;

verus! {

/// Whether `s` is strictly ascending by `lt`.
pub open spec fn sorted_by<T>(s: Seq<T>, lt: spec_fn(T, T) -> bool) -> bool {
    forall|i: int, j: int| 0 <= i < j < s.len() ==> #[trigger] lt(s[i], s[j])
}

/// Whether `lt` is a strict total order.
pub open spec fn strict_total<T>(lt: spec_fn(T, T) -> bool) -> bool {
    &&& forall|a: T| !#[trigger] lt(a, a)
    &&& forall|a: T, b: T, c: T| #[trigger] lt(a, b) && #[trigger] lt(b, c) ==> lt(a, c)
    &&& forall|a: T, b: T| a != b ==> #[trigger] lt(a, b) || #[trigger] lt(b, a)
}

/// The elements of `s` in ascending order by `lt`.
pub open spec fn listing_by<T>(s: Set<T>, lt: spec_fn(T, T) -> bool) -> Seq<T> {
    choose|q: Seq<T>| sorted_by(q, lt) && q.to_set() == s
}

/// A strictly ascending sequence holds no element twice.
pub proof fn lemma_sorted_distinct<T>(s: Seq<T>, lt: spec_fn(T, T) -> bool)
    requires
        strict_total(lt),
        sorted_by(s, lt),
    ensures
        s.no_duplicates(),
{
    assert forall|i: int, j: int| 0 <= i < s.len() && 0 <= j < s.len() && i != j implies s[i] != s[j] by {
        if i < j {
            assert(lt(s[i], s[j]));
        } else {
            assert(lt(s[j], s[i]));
        }
    }
}

/// Two strictly ascending sequences with the same elements are equal.
pub proof fn lemma_sorted_unique<T>(a: Seq<T>, b: Seq<T>, lt: spec_fn(T, T) -> bool)
    requires
        strict_total(lt),
        sorted_by(a, lt),
        sorted_by(b, lt),
        a.to_set() == b.to_set(),
    ensures
        a == b,
    decreases a.len(),
{
    if a.len() == 0 {
        if b.len() > 0 {
            assert(b.to_set().contains(b[0]));
        }
        assert(a =~= b);
    } else {
        assert(a.to_set().contains(a[0]));
        assert(b.len() > 0);
        assert(b.to_set().contains(b[0]));
        let j = choose|j: int| 0 <= j < a.len() && a[j] == b[0];
        let k = choose|k: int| 0 <= k < b.len() && b[k] == a[0];
        if j > 0 && k > 0 {
            assert(lt(a[0], a[j]));
            assert(lt(b[0], b[k]));
            assert(lt(a[0], a[0]));
        }
        if j > 0 && k == 0 {
            assert(lt(a[0], a[j]));
        }
        if k > 0 && j == 0 {
            assert(lt(b[0], b[k]));
        }
        assert(a[0] == b[0]);
        let a1 = a.drop_first();
        let b1 = b.drop_first();
        assert forall|x: T| a1.to_set().contains(x) <==> b1.to_set().contains(x) by {
            if a1.to_set().contains(x) {
                let i = choose|i: int| 0 <= i < a1.len() && a1[i] == x;
                assert(lt(a[0], a[i + 1]));
                assert(a.to_set().contains(x));
                let m = choose|m: int| 0 <= m < b.len() && b[m] == x;
                assert(m != 0);
                assert(b1[m - 1] == x);
            }
            if b1.to_set().contains(x) {
                let i = choose|i: int| 0 <= i < b1.len() && b1[i] == x;
                assert(lt(b[0], b[i + 1]));
                assert(b.to_set().contains(x));
                let m = choose|m: int| 0 <= m < a.len() && a[m] == x;
                assert(m != 0);
                assert(a1[m - 1] == x);
            }
        }
        assert(a1.to_set() =~= b1.to_set());
        lemma_sorted_unique(a1, b1, lt);
        assert(a =~= seq![a[0]] + a1);
        assert(b =~= seq![b[0]] + b1);
    }
}

/// A strictly ascending sequence is the listing of its elements.
pub proof fn lemma_listing<T>(q: Seq<T>, lt: spec_fn(T, T) -> bool)
    requires
        strict_total(lt),
        sorted_by(q, lt),
    ensures
        listing_by(q.to_set(), lt) == q,
{
    let l = listing_by(q.to_set(), lt);
    assert(sorted_by(l, lt) && l.to_set() == q.to_set());
    lemma_sorted_unique(l, q, lt);
}

/// The order of positions by x, then by y.
pub open spec fn pos_lt(a: Pos, b: Pos) -> bool {
    a.0 < b.0 || (a.0 == b.0 && a.1 < b.1)
}

pub open spec fn pos_order() -> spec_fn(Pos, Pos) -> bool {
    |a: Pos, b: Pos| pos_lt(a, b)
}

/// The order of (shop index, position) pairs: by index, then by position.
pub open spec fn index_pos_order() -> spec_fn((usize, Pos), (usize, Pos)) -> bool {
    |a: (usize, Pos), b: (usize, Pos)| a.0 < b.0 || (a.0 == b.0 && pos_lt(a.1, b.1))
}

/// The order of pairs of positions: by the first, then by the second.
pub open spec fn pos_pair_order() -> spec_fn((Pos, Pos), (Pos, Pos)) -> bool {
    |a: (Pos, Pos), b: (Pos, Pos)| pos_lt(a.0, b.0) || (a.0 == b.0 && pos_lt(a.1, b.1))
}

/// The lexicographic order of lists of positions; a proper prefix comes
/// first.
pub open spec fn path_lt(a: Seq<Pos>, b: Seq<Pos>) -> bool
    decreases a.len(),
{
    if a.len() == 0 {
        b.len() > 0
    } else if b.len() == 0 {
        false
    } else {
        pos_lt(a[0], b[0]) || (a[0] == b[0] && path_lt(a.drop_first(), b.drop_first()))
    }
}

pub open spec fn path_order() -> spec_fn(Seq<Pos>, Seq<Pos>) -> bool {
    |a: Seq<Pos>, b: Seq<Pos>| path_lt(a, b)
}

pub proof fn lemma_pos_orders_total()
    ensures
        strict_total(pos_order()),
        strict_total(index_pos_order()),
        strict_total(pos_pair_order()),
{
}

proof fn lemma_path_lt_irreflexive(a: Seq<Pos>)
    ensures
        !path_lt(a, a),
    decreases a.len(),
{
    if a.len() > 0 {
        lemma_path_lt_irreflexive(a.drop_first());
    }
}

proof fn lemma_path_lt_transitive(a: Seq<Pos>, b: Seq<Pos>, c: Seq<Pos>)
    requires
        path_lt(a, b),
        path_lt(b, c),
    ensures
        path_lt(a, c),
    decreases a.len(),
{
    if a.len() > 0 && b.len() > 0 && c.len() > 0 {
        if a[0] == b[0] && b[0] == c[0] {
            lemma_path_lt_transitive(a.drop_first(), b.drop_first(), c.drop_first());
        }
    }
}

proof fn lemma_path_lt_total(a: Seq<Pos>, b: Seq<Pos>)
    requires
        a != b,
    ensures
        path_lt(a, b) || path_lt(b, a),
    decreases a.len(),
{
    if a.len() > 0 && b.len() > 0 && a[0] == b[0] {
        if a.drop_first() == b.drop_first() {
            assert(a =~= seq![a[0]] + a.drop_first());
            assert(b =~= seq![b[0]] + b.drop_first());
        }
        lemma_path_lt_total(a.drop_first(), b.drop_first());
    }
    if a.len() == 0 && b.len() == 0 {
        assert(a =~= b);
    }
}

pub proof fn lemma_path_order_total()
    ensures
        strict_total(path_order()),
{
    assert forall|a: Seq<Pos>| !#[trigger] path_order()(a, a) by {
        lemma_path_lt_irreflexive(a);
    }
    assert forall|a: Seq<Pos>, b: Seq<Pos>, c: Seq<Pos>| #[trigger] path_order()(a, b) && #[trigger] path_order()(b, c) implies path_order()(
        a,
        c,
    ) by {
        lemma_path_lt_transitive(a, b, c);
    }
    assert forall|a: Seq<Pos>, b: Seq<Pos>| a != b implies #[trigger] path_order()(a, b) || #[trigger] path_order()(b, a) by {
        lemma_path_lt_total(a, b);
    }
}

/// Appending an element above all others keeps a sequence ascending.
pub proof fn lemma_push_sorted<T>(s: Seq<T>, x: T, lt: spec_fn(T, T) -> bool)
    requires
        sorted_by(s, lt),
        forall|k: int| 0 <= k < s.len() ==> #[trigger] lt(s[k], x),
    ensures
        sorted_by(s.push(x), lt),
{
    assert forall|i: int, j: int| 0 <= i < j < s.push(x).len() implies #[trigger] lt(s.push(x)[i], s.push(x)[j]) by {
        if j == s.len() {
            assert(lt(s[i], x));
        } else {
            assert(lt(s[i], s[j]));
        }
    }
}

/// Every element taken from the first `i` of an ascending sequence comes
/// before its element `i`.
pub proof fn lemma_before<T>(keys: Seq<T>, r: Seq<T>, i: int, lt: spec_fn(T, T) -> bool)
    requires
        sorted_by(keys, lt),
        0 <= i < keys.len(),
        forall|x: T| r.contains(x) ==> keys.take(i).contains(x),
    ensures
        forall|k: int| 0 <= k < r.len() ==> #[trigger] lt(r[k], keys[i]),
{
    assert forall|k: int| 0 <= k < r.len() implies #[trigger] lt(r[k], keys[i]) by {
        assert(r.contains(r[k]));
        let a = choose|a: int| 0 <= a < i && keys.take(i)[a] == r[k];
        assert(lt(keys[a], keys[i]));
    }
}

/// Two ascending sequences, the first wholly below the second, make an
/// ascending sequence.
pub proof fn lemma_concat_sorted<T>(s: Seq<T>, t: Seq<T>, lt: spec_fn(T, T) -> bool)
    requires
        sorted_by(s, lt),
        sorted_by(t, lt),
        forall|i: int, j: int| 0 <= i < s.len() && 0 <= j < t.len() ==> #[trigger] lt(s[i], t[j]),
    ensures
        sorted_by(s + t, lt),
{
    assert forall|i: int, j: int| 0 <= i < j < (s + t).len() implies #[trigger] lt((s + t)[i], (s + t)[j]) by {
        if j < s.len() {
            assert(lt(s[i], s[j]));
        } else if i < s.len() {
            assert(lt(s[i], t[j - s.len()]));
        } else {
            assert(lt(t[i - s.len()], t[j - s.len()]));
        }
    }
}

} // verus!
