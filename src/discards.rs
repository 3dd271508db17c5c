use crate::actions::{
    discard_one_result, discard_result, discard_seq, eligible_discards, lost, nearly_candidates, outer_candidates,
    without,
};
use crate::castle::{Castle, CastleView, Pos};
use crate::error::CastleError;
use crate::order::{lemma_listing, lemma_path_order_total, listing_by, path_lt, path_order, pos_order, sorted_by};
use vstd::prelude::*;

verus! {

broadcast use vstd::std_specs::btree::group_btree_axioms, vstd::laws_cmp::group_laws_cmp;

/// Whether discarding the rooms at `s`, in order, each one eligible when its
/// turn comes, resolves the damage of `c` exactly.
pub open spec fn discard_path(c: CastleView, s: Seq<Pos>) -> bool
    decreases s.len(),
{
    if s.len() == 0 {
        c.damage == 0
    } else {
        &&& c.damage > 0
        &&& eligible_discards(c).contains(s[0])
        &&& discard_path(without(c, s[0]), s.drop_first())
    }
}

/// The discard paths of `c`.
pub open spec fn path_set(c: CastleView) -> Set<Seq<Pos>> {
    Set::new(|s: Seq<Pos>| discard_path(c, s))
}

/// The discard paths of `c`, in lexicographic order.
pub open spec fn discard_list(c: CastleView) -> Seq<Seq<Pos>> {
    listing_by(path_set(c), path_order())
}

/// A room that is eligible for discarding is discarded without error.
pub proof fn lemma_eligible_discard(c: CastleView, p: Pos)
    requires
        c.damage > 0,
        eligible_discards(c).contains(p),
    ensures
        discard_one_result(c, p) == Ok::<CastleView, CastleError>(without(c, p)),
{
    assert(!lost(c));
    assert(c.rooms.len() != 1);
    if !outer_candidates(c.rooms).is_empty() {
        assert(outer_candidates(c.rooms).contains(p));
    } else {
        assert(nearly_candidates(c.rooms).contains(p));
    }
}

/// Discarding along a discard path resolves all the damage.
pub proof fn lemma_discard_path_resolves(c: CastleView, s: Seq<Pos>)
    requires
        discard_path(c, s),
    ensures
        discard_seq(c, s) is Ok,
        discard_seq(c, s)->Ok_0.damage == 0,
    decreases s.len(),
{
    if s.len() > 0 {
        lemma_eligible_discard(c, s[0]);
        lemma_discard_path_resolves(without(c, s[0]), s.drop_first());
    }
}

/// Whether the lists of positions held by `r` are strictly ascending.
pub open spec fn paths_sorted(r: Seq<Vec<Pos>>) -> bool {
    forall|a: int, b: int| 0 <= a < b < r.len() ==> path_lt(#[trigger] r[a]@, #[trigger] r[b]@)
}

/// Appending `p` followed by each of the ascending lists `tails` to lists
/// that begin with positions before `p` keeps the lists ascending.
proof fn lemma_extend_sorted(
    start: Seq<Vec<Pos>>,
    r: Seq<Vec<Pos>>,
    tails: Seq<Vec<Pos>>,
    p: Pos,
    el: Seq<Pos>,
    i: int,
)
    requires
        sorted_by(el, pos_order()),
        0 <= i < el.len(),
        el[i] == p,
        paths_sorted(start),
        paths_sorted(tails),
        forall|k: int| 0 <= k < start.len() ==> (#[trigger] start[k])@.len() > 0 && el.take(i).contains(start[k]@[0]),
        r.len() == start.len() + tails.len(),
        forall|k: int| 0 <= k < start.len() ==> #[trigger] r[k] == start[k],
        forall|k: int| 0 <= k < tails.len() ==> #[trigger] r[start.len() + k]@ == seq![p] + tails[k]@,
    ensures
        paths_sorted(r),
        forall|k: int| 0 <= k < r.len() ==> (#[trigger] r[k])@.len() > 0 && el.take(i + 1).contains(r[k]@[0]),
{
    let n = start.len() as int;
    assert forall|a: int, b: int| 0 <= a < b < r.len() implies path_lt(#[trigger] r[a]@, #[trigger] r[b]@) by {
        if b < n {
            assert(r[a] == start[a] && r[b] == start[b]);
        } else if a < n {
            assert(r[a] == start[a]);
            let q = start[a]@[0];
            let m = choose|m: int| 0 <= m < i && el.take(i)[m] == q;
            assert(pos_order()(el[m], el[i]));
            assert(r[n + (b - n)]@ == seq![p] + tails[b - n]@);
            assert(r[b]@[0] == p);
        } else {
            let ta = tails[a - n]@;
            let tb = tails[b - n]@;
            assert(path_lt(tails[a - n]@, tails[b - n]@));
            assert((seq![p] + ta).drop_first() =~= ta);
            assert((seq![p] + tb).drop_first() =~= tb);
            assert(r[n + (a - n)]@ == seq![p] + ta);
            assert(r[n + (b - n)]@ == seq![p] + tb);
        }
    }
    assert forall|k: int| 0 <= k < r.len() implies (#[trigger] r[k])@.len() > 0 && el.take(i + 1).contains(r[k]@[0]) by {
        if k < n {
            assert(r[k] == start[k]);
            let m = choose|m: int| 0 <= m < i && el.take(i)[m] == start[k]@[0];
            assert(el.take(i + 1)[m] == start[k]@[0]);
        } else {
            assert(r[n + (k - n)]@ == seq![p] + tails[k - n]@);
            assert(el.take(i + 1)[i] == p);
        }
    }
}

/// `p` followed by the positions of `t`.
fn prepend(p: Pos, t: &Vec<Pos>) -> (r: Vec<Pos>)
    ensures
        r@ == seq![p] + t@,
{
    let mut r: Vec<Pos> = Vec::new();
    r.push(p);
    for i in 0..t.len()
        invariant
            r@ == seq![p] + t@.take(i as int),
    {
        r.push(t[i]);
        assert(t@.take(i + 1) =~= t@.take(i as int).push(t@[i as int]));
        assert(r@ =~= seq![p] + t@.take(i + 1));
    }
    assert(t@.take(t@.len() as int) =~= t@);
    r
}

impl Castle {
    /// Every discard path from this castle; the empty one when there is no
    /// damage.
    fn discards_from(&self) -> (r: Vec<Vec<Pos>>)
        ensures
            forall|k: int| 0 <= k < r@.len() ==> discard_path(self@, #[trigger] r@[k]@),
            forall|s: Seq<Pos>| discard_path(self@, s) ==> exists|k: int| 0 <= k < r@.len() && #[trigger] r@[k]@ == s,
            paths_sorted(r@),
        decreases self.damage,
    {
        let mut r: Vec<Vec<Pos>> = Vec::new();
        if self.damage == 0 {
            r.push(Vec::new());
            proof {
                assert forall|s: Seq<Pos>| discard_path(self@, s) implies exists|k: int| 0 <= k < r@.len() && #[trigger] r@[k]@ == s by {
                    assert(s.len() == 0);
                    assert(r@[0]@ =~= s);
                }
            }
            return r;
        }
        let eligible = self.possible_discard();
        for i in 0..eligible.len()
            invariant
                self.damage > 0,
                eligible@.to_set() == eligible_discards(self@),
                forall|k: int| 0 <= k < r@.len() ==> discard_path(self@, #[trigger] r@[k]@),
                forall|s: Seq<Pos>|
                    discard_path(self@, s) && eligible@.take(i as int).contains(s[0]) ==> exists|k: int|
                        0 <= k < r@.len() && #[trigger] r@[k]@ == s,
                sorted_by(eligible@, pos_order()),
                paths_sorted(r@),
                forall|k: int| 0 <= k < r@.len() ==> (#[trigger] r@[k])@.len() > 0 && eligible@.take(i as int).contains(r@[k]@[0]),
        {
            let p = eligible[i];
            assert(eligible@.to_set().contains(p));
            proof {
                lemma_eligible_discard(self@, p);
            }
            let ghost start = r@;
            let result = self.action_discard_one(p);
            if result.is_err() {
                assert(false);
                return r;
            }
            let next = result.unwrap();
            let tails = next.discards_from();
            for j in 0..tails.len()
                invariant
                    self.damage > 0,
                    eligible_discards(self@).contains(p),
                    next@ == without(self@, p),
                    forall|k: int| 0 <= k < tails@.len() ==> discard_path(next@, #[trigger] tails@[k]@),
                    forall|k: int| 0 <= k < r@.len() ==> discard_path(self@, #[trigger] r@[k]@),
                    r@.len() == start.len() + j,
                    forall|k: int| 0 <= k < start.len() ==> #[trigger] r@[k] == start[k],
                    forall|k: int| 0 <= k < j ==> #[trigger] r@[start.len() + k]@ == seq![p] + tails@[k]@,
                    paths_sorted(start),
                    paths_sorted(tails@),
            {
                let v = prepend(p, &tails[j]);
                proof {
                    assert(v@.drop_first() =~= tails@[j as int]@);
                    assert(v@[0] == p);
                }
                r.push(v);
            }
            proof {
                assert(eligible@.take(i + 1) =~= eligible@.take(i as int).push(p));
                lemma_extend_sorted(start, r@, tails@, p, eligible@, i as int);
                assert forall|s: Seq<Pos>|
                    discard_path(self@, s) && eligible@.take(i + 1).contains(s[0]) implies exists|k: int|
                        0 <= k < r@.len() && #[trigger] r@[k]@ == s by {
                    if eligible@.take(i as int).contains(s[0]) {
                        let k = choose|k: int| 0 <= k < start.len() && #[trigger] start[k]@ == s;
                        assert(r@[k] == start[k]);
                    } else {
                        assert(s[0] == p) by {
                            let j = choose|j: int| 0 <= j < i + 1 && #[trigger] eligible@.take(i + 1)[j] == s[0];
                            if j < i {
                                assert(eligible@.take(i as int)[j] == s[0]);
                            }
                        }
                        let t = s.drop_first();
                        assert(discard_path(next@, t));
                        let j = choose|j: int| 0 <= j < tails@.len() && #[trigger] tails@[j]@ == t;
                        assert(r@[start.len() + j]@ == seq![p] + t);
                        assert(seq![p] + t =~= s);
                    }
                }
            }
        }
        proof {
            assert(eligible@.take(eligible@.len() as int) =~= eligible@);
            assert forall|s: Seq<Pos>| discard_path(self@, s) implies eligible@.contains(s[0]) by {
                assert(eligible@.to_set().contains(s[0]));
            }
        }
        r
    }

    /// Every sequence of discards that resolves the outstanding damage, each
    /// room eligible when its turn comes; none when there is no damage.
    pub fn all_possible_discards(&self) -> (r: Vec<Vec<Pos>>)
        ensures
            self.damage == 0 ==> r@.len() == 0,
            forall|k: int| 0 <= k < r@.len() ==> discard_path(self@, #[trigger] r@[k]@),
            forall|k: int|
                0 <= k < r@.len() ==> #[trigger] discard_result(self@, r@[k]@) is Ok && discard_result(self@, r@[k]@)->Ok_0.damage == 0,
            self.damage > 0 ==> forall|s: Seq<Pos>| discard_path(self@, s) ==> exists|k: int| 0 <= k < r@.len() && #[trigger] r@[k]@ == s,
            r@.no_duplicates(),
            paths_sorted(r@),
            self.damage > 0 ==> r@.map_values(|v: Vec<Pos>| v@) == discard_list(self@),
    {
        if self.damage == 0 {
            return Vec::new();
        }
        let r = self.discards_from();
        proof {
            assert forall|k: int| 0 <= k < r@.len() implies #[trigger] discard_result(self@, r@[k]@) is Ok && discard_result(
                self@,
                r@[k]@,
            )->Ok_0.damage == 0 by {
                lemma_discard_path_resolves(self@, r@[k]@);
            }
            lemma_path_order_total();
            let views = r@.map_values(|v: Vec<Pos>| v@);
            assert(sorted_by(views, path_order())) by {
                assert forall|a: int, b: int| 0 <= a < b < views.len() implies #[trigger] path_order()(views[a], views[b]) by {
                    assert(path_lt(r@[a]@, r@[b]@));
                }
            }
            assert forall|a: int, b: int| 0 <= a < r@.len() && 0 <= b < r@.len() && a != b implies r@[a] != r@[b] by {
                if a < b {
                    assert(path_lt(r@[a]@, r@[b]@));
                    assert(!path_order()(r@[a]@, r@[a]@));
                } else {
                    assert(path_lt(r@[b]@, r@[a]@));
                    assert(!path_order()(r@[b]@, r@[b]@));
                }
            }
            assert forall|s: Seq<Pos>| views.to_set().contains(s) <==> discard_path(self@, s) by {
                if views.to_set().contains(s) {
                    let k = choose|k: int| 0 <= k < views.len() && views[k] == s;
                    assert(discard_path(self@, r@[k]@));
                }
                if discard_path(self@, s) {
                    let k = choose|k: int| 0 <= k < r@.len() && #[trigger] r@[k]@ == s;
                    assert(views[k] == s);
                }
            }
            assert(views.to_set() =~= Set::new(|s: Seq<Pos>| discard_path(self@, s)));
            assert(views.to_set() =~= path_set(self@));
            lemma_listing(views, path_order());
        }
        r
    }
}

} // verus!
