use crate::actions::{copy_positions, swap_legal, Action};
use crate::castle::CastleView;
use crate::discards::{discard_list, discard_path};
use crate::castle::{can_place, connecting, edge, neighbor, num_connected, opposite, Castle, PlacedRoom, Pos};
use crate::room::Room;
use crate::order::{lemma_path_order_total, path_lt, path_order, index_pos_order, lemma_concat_sorted, pos_pair_order, lemma_before, lemma_push_sorted, lemma_listing, lemma_pos_orders_total, lemma_sorted_distinct, listing_by, pos_lt, pos_order, sorted_by};
use vstd::prelude::*;

verus! {

broadcast use vstd::std_specs::btree::group_btree_axioms, vstd::laws_cmp::group_laws_cmp;

/// Whether `q` is one of the four neighbours of `p`.
pub open spec fn next_to(p: Pos, q: Pos) -> bool {
    exists|d: int| 0 <= d < 4 && #[trigger] neighbor(p, d) == Some(q)
}

/// Whether `room` may be placed at the free position `q`.
pub open spec fn fits_free(rooms: Map<Pos, PlacedRoom>, room: PlacedRoom, q: Pos) -> bool {
    !rooms.contains_key(q) && can_place(rooms, room, q)
}

/// The placements of a room of `shop`, unturned, as (index in the shop,
/// position).
pub open spec fn placement_set(c: CastleView, shop: Seq<Room>) -> Set<(usize, Pos)> {
    Set::new(|x: (usize, Pos)| x.0 < shop.len() && fits_free(c.rooms, PlacedRoom { info: shop[x.0 as int], rotation: 0 }, x.1))
}

/// The moves of an outer room, unturned, as (from, to).
pub open spec fn move_set(c: CastleView) -> Set<(Pos, Pos)> {
    Set::new(|x: (Pos, Pos)| move_fits(c.rooms, x.0, x.1, 0))
}

/// The exchanges of two rooms, the smaller position first.
pub open spec fn swap_set(c: CastleView) -> Set<(Pos, Pos)> {
    Set::new(|x: (Pos, Pos)| pos_lt(x.0, x.1) && swap_fits(c.rooms, x.0, x.1))
}

/// The actions offered to a player of a castle without damage, in order:
/// placements by shop index and position, then moves, then exchanges.
pub open spec fn offered_list(c: CastleView, shop: Seq<Room>) -> Seq<Action> {
    listing_by(placement_set(c, shop), index_pos_order()).map_values(
        |x: (usize, Pos)| Action::Place(shop[x.0 as int], x.1, 0),
    ) + listing_by(move_set(c), pos_pair_order()).map_values(|x: (Pos, Pos)| Action::Move(x.0, x.1, 0))
        + listing_by(swap_set(c), pos_pair_order()).map_values(|x: (Pos, Pos)| Action::Swap(x.0, x.1))
}

/// Whether the outer room at `from` may move to `to`, turned to `rot`.
pub open spec fn move_fits(rooms: Map<Pos, PlacedRoom>, from: Pos, to: Pos, rot: u16) -> bool {
    &&& rooms.contains_key(from)
    &&& num_connected(rooms, from) == 1
    &&& to != from
    &&& fits_free(rooms.remove(from), PlacedRoom { info: rooms[from].info, rotation: rot }, to)
}

/// Whether the rooms at two distinct occupied positions may change places.
pub open spec fn swap_fits(rooms: Map<Pos, PlacedRoom>, p1: Pos, p2: Pos) -> bool {
    &&& p1 != p2
    &&& rooms.contains_key(p1)
    &&& rooms.contains_key(p2)
    &&& swap_legal(rooms, p1, p2)
}

/// Whether `a` is among the actions offered to a player of castle `c` with
/// the rooms of `shop` for sale: discards that resolve all the damage while
/// there is damage; otherwise placements of an unturned shop room, moves of an
/// outer room that leave it unturned, and exchanges of two rooms, each pair
/// once.
pub open spec fn offered(c: CastleView, shop: Seq<Room>, a: Action) -> bool {
    if c.damage > 0 {
        a is Discard && discard_path(c, a->Discard_0@)
    } else {
        match a {
            Action::Place(room, pos, rot) => rot == 0 && (exists|i: int| 0 <= i < shop.len() && #[trigger] shop[i] == room)
                && fits_free(c.rooms, PlacedRoom { info: room, rotation: 0 }, pos),
            Action::Move(from, to, rot) => rot == 0 && move_fits(c.rooms, from, to, 0),
            Action::Swap(p1, p2) => pos_lt(p1, p2) && swap_fits(c.rooms, p1, p2),
            _ => false,
        }
    }
}

/// The pairs of `keys[i]` with the ascending positions of `v`, appended to
/// pairs whose first position comes from `keys` before `i`, keep the pairs
/// ascending.
proof fn block_after(keys: Seq<Pos>, before: Seq<(Pos, Pos)>, v: Seq<Pos>, i: int)
    requires
        sorted_by(keys, pos_order()),
        0 <= i < keys.len(),
        sorted_by(before, pos_pair_order()),
        sorted_by(v, pos_order()),
        forall|f: Pos, t: Pos| #[trigger] before.contains((f, t)) ==> keys.take(i).contains(f),
    ensures
        sorted_by(before + v.map_values(|q: Pos| (keys[i], q)), pos_pair_order()),
{
    let block = v.map_values(|q: Pos| (keys[i], q));
    assert forall|a: int, b: int| 0 <= a < b < block.len() implies #[trigger] pos_pair_order()(block[a], block[b]) by {
        assert(pos_order()(v[a], v[b]));
    }
    assert forall|a: int, b: int| 0 <= a < before.len() && 0 <= b < block.len() implies #[trigger] pos_pair_order()(
        before[a],
        block[b],
    ) by {
        assert(before.contains((before[a].0, before[a].1)));
        let k = choose|k: int| 0 <= k < i && keys.take(i)[k] == before[a].0;
        assert(pos_order()(keys[k], keys[i]));
    }
    lemma_concat_sorted(before, block, pos_pair_order());
}

/// Going from `q` in direction `i` and back again leads to `q`.
pub proof fn lemma_neighbor_back(q: Pos, i: int)
    requires
        0 <= i < 4,
        neighbor(q, i) is Some,
    ensures
        neighbor(neighbor(q, i)->Some_0, opposite(i)) == Some(q),
{
}

/// A room may only be placed beside a room that is already there.
pub proof fn lemma_placement_beside(rooms: Map<Pos, PlacedRoom>, room: PlacedRoom, q: Pos)
    requires
        can_place(rooms, room, q),
    ensures
        exists|p: Pos| rooms.contains_key(p) && #[trigger] next_to(p, q),
{
    let i = choose|i: int| 0 <= i < 4 && edge(rooms, room, q, i) == Some(true);
    lemma_neighbor_back(q, i);
    let p = neighbor(q, i)->Some_0;
    assert(neighbor(p, opposite(i)) == Some(q));
    assert(rooms.contains_key(p) && next_to(p, q));
}

/// Adds `q` to the ascending list `v`, where it is not there yet.
pub(crate) fn insert_sorted(v: &mut Vec<Pos>, q: Pos)
    requires
        sorted_by(old(v)@, pos_order()),
    ensures
        sorted_by(final(v)@, pos_order()),
        forall|x: Pos| #[trigger] final(v)@.contains(x) <==> (old(v)@.contains(x) || x == q),
{
    proof {
        lemma_pos_orders_total();
    }
    let mut k: usize = 0;
    while k < v.len() && (v[k].0 < q.0 || (v[k].0 == q.0 && v[k].1 < q.1))
        invariant
            k <= v@.len(),
            forall|a: int| 0 <= a < k ==> pos_lt(#[trigger] v@[a], q),
        decreases v@.len() - k,
    {
        k = k + 1;
    }
    if k < v.len() && v[k].0 == q.0 && v[k].1 == q.1 {
        assert(v@[k as int] == q);
        return;
    }
    let ghost before = v@;
    proof {
        if k < before.len() {
            assert(pos_lt(q, before[k as int]));
        }
        assert forall|a: int| k <= a < before.len() implies pos_lt(q, #[trigger] before[a]) by {
            if a > k {
                assert(pos_order()(before[k as int], before[a]));
            }
        }
    }
    v.insert(k, q);
    proof {
        assert forall|i: int, j: int| 0 <= i < j < v@.len() implies #[trigger] pos_order()(v@[i], v@[j]) by {
            if j < k {
                assert(pos_order()(before[i], before[j]));
            } else if j == k {
            } else if i < k {
                assert(pos_lt(before[i], q));
                assert(pos_lt(q, before[j - 1]));
            } else if i == k {
            } else {
                assert(pos_order()(before[i - 1], before[j - 1]));
            }
        }
        assert forall|x: Pos| #[trigger] v@.contains(x) <==> (before.contains(x) || x == q) by {
            if v@.contains(x) {
                let a = choose|a: int| 0 <= a < v@.len() && v@[a] == x;
                if a < k {
                    assert(before[a] == x);
                } else if a > k {
                    assert(before[a - 1] == x);
                }
            }
            if before.contains(x) {
                let a = choose|a: int| 0 <= a < before.len() && before[a] == x;
                if a < k {
                    assert(v@[a] == x);
                } else {
                    assert(v@[a + 1] == x);
                }
            }
            if x == q {
                assert(v@[k as int] == q);
            }
        }
    }
}

/// Appends `(a, q)` to `out` for each `q` of `v`.
fn pair_with<T: Copy>(out: &mut Vec<(T, Pos)>, a: T, v: &Vec<Pos>)
    requires
        old(out)@.no_duplicates(),
        v@.no_duplicates(),
        forall|q: Pos| !old(out)@.contains((a, q)),
    ensures
        final(out)@.no_duplicates(),
        forall|x: T, q: Pos| #[trigger] final(out)@.contains((x, q)) <==> (old(out)@.contains((x, q)) || (x == a && v@.contains(q))),
        final(out)@ == old(out)@ + v@.map_values(|q: Pos| (a, q)),
{
    let ghost start = out@;
    for i in 0..v.len()
        invariant
            v@.no_duplicates(),
            forall|q: Pos| !start.contains((a, q)),
            out@.no_duplicates(),
            forall|x: T, q: Pos| #[trigger] out@.contains((x, q)) <==> (start.contains((x, q)) || (x == a && v@.take(i as int).contains(q))),
            out@ == start + v@.take(i as int).map_values(|q: Pos| (a, q)),
    {
        let ghost before = out@;
        let q = v[i];
        proof {
            assert(!v@.take(i as int).contains(q)) by {
                if v@.take(i as int).contains(q) {
                    let j = choose|j: int| 0 <= j < i && v@.take(i as int)[j] == q;
                    assert(v@[j] == v@[i as int]);
                }
            }
            assert(!before.contains((a, q)));
        }
        out.push((a, q));
        proof {
            assert(v@.take(i + 1) =~= v@.take(i as int).push(q));
            assert(out@ =~= start + v@.take(i + 1).map_values(|q: Pos| (a, q)));
            assert forall|x: T, y: Pos| #[trigger] out@.contains((x, y)) <==> (start.contains((x, y)) || (x == a && v@.take(i + 1).contains(y))) by {
                if out@.contains((x, y)) && (x, y) != (a, q) {
                    let j = choose|j: int| 0 <= j < out@.len() && out@[j] == (x, y);
                    assert(before[j] == (x, y));
                }
                if before.contains((x, y)) {
                    let j = choose|j: int| 0 <= j < before.len() && before[j] == (x, y);
                    assert(out@[j] == (x, y));
                }
                if (x, y) == (a, q) {
                    assert(out@[out@.len() - 1] == (a, q));
                }
                if v@.take(i + 1).contains(y) && y != q {
                    let j = choose|j: int| 0 <= j < i + 1 && #[trigger] v@.take(i + 1)[j] == y;
                    assert(v@.take(i as int)[j] == y);
                }
                if v@.take(i as int).contains(y) {
                    let j = choose|j: int| 0 <= j < i && #[trigger] v@.take(i as int)[j] == y;
                    assert(v@.take(i + 1)[j] == y);
                }
                if y == q {
                    assert(v@.take(i + 1)[i as int] == q);
                }
            }
        }
    }
    proof {
        assert(v@.take(v@.len() as int) =~= v@);
    }
}

/// The positions of `v` that pass a test: not equal to `p` (`after` false),
/// or after `p` in the order of positions (`after` true).
fn select(v: &Vec<Pos>, p: Pos, after: bool) -> (r: Vec<Pos>)
    requires
        v@.no_duplicates(),
        sorted_by(v@, pos_order()),
    ensures
        r@.no_duplicates(),
        sorted_by(r@, pos_order()),
        forall|q: Pos| #[trigger] r@.contains(q) <==> (v@.contains(q) && if after { pos_lt(p, q) } else { q != p }),
{
    let mut r: Vec<Pos> = Vec::new();
    for i in 0..v.len()
        invariant
            v@.no_duplicates(),
            sorted_by(v@, pos_order()),
            sorted_by(r@, pos_order()),
            r@.no_duplicates(),
            forall|q: Pos| #[trigger] r@.contains(q) <==> (v@.take(i as int).contains(q) && if after { pos_lt(p, q) } else { q != p }),
    {
        let ghost before = r@;
        let q = v[i];
        let keep = if after { p.0 < q.0 || (p.0 == q.0 && p.1 < q.1) } else { q.0 != p.0 || q.1 != p.1 };
        proof {
            assert(!v@.take(i as int).contains(q)) by {
                if v@.take(i as int).contains(q) {
                    let j = choose|j: int| 0 <= j < i && v@.take(i as int)[j] == q;
                    assert(v@[j] == v@[i as int]);
                }
            }
            assert(!before.contains(q));
            lemma_before(v@, before, i as int, pos_order());
            lemma_push_sorted(before, q, pos_order());
        }
        if keep {
            r.push(q);
        }
        proof {
            assert(v@.take(i + 1) =~= v@.take(i as int).push(q));
            assert forall|y: Pos| #[trigger] r@.contains(y) <==> (v@.take(i + 1).contains(y) && if after { pos_lt(p, y) } else { y != p }) by {
                if keep {
                    if r@.contains(y) && y != q {
                        let j = choose|j: int| 0 <= j < r@.len() && r@[j] == y;
                        assert(before[j] == y);
                    }
                    if before.contains(y) {
                        let j = choose|j: int| 0 <= j < before.len() && before[j] == y;
                        assert(r@[j] == y);
                    }
                    if y == q {
                        assert(r@[r@.len() - 1] == q);
                    }
                }
                if v@.take(i + 1).contains(y) && y != q {
                    let j = choose|j: int| 0 <= j < i + 1 && #[trigger] v@.take(i + 1)[j] == y;
                    assert(v@.take(i as int)[j] == y);
                }
                if v@.take(i as int).contains(y) {
                    let j = choose|j: int| 0 <= j < i && #[trigger] v@.take(i as int)[j] == y;
                    assert(v@.take(i + 1)[j] == y);
                }
                if y == q {
                    assert(v@.take(i + 1)[i as int] == q);
                }
            }
        }
    }
    proof {
        assert(v@.take(v@.len() as int) =~= v@);
    }
    r
}

impl Castle {
    /// Adds to `r` the free neighbours of `p` where `room` may be placed.
    fn add_placements_around(&self, room: &PlacedRoom, p: Pos, r: &mut Vec<Pos>)
        requires
            sorted_by(old(r)@, pos_order()),
        ensures
            sorted_by(final(r)@, pos_order()),
            forall|q: Pos|
                #[trigger] final(r)@.contains(q) <==> (old(r)@.contains(q) || (next_to(p, q) && fits_free(self.rooms@, *room, q))),
    {
        let nbrs = connecting(p);
        let ghost start = r@;
        for d in 0..4usize
            invariant
                forall|k: int| 0 <= k < 4 ==> nbrs@[k] == neighbor(p, k),
                sorted_by(r@, pos_order()),
                forall|q: Pos|
                    #[trigger] r@.contains(q) <==> (start.contains(q) || ((exists|e: int| 0 <= e < d && #[trigger] neighbor(p, e) == Some(q))
                        && fits_free(self.rooms@, *room, q))),
        {
            let ghost before = r@;
            if let Some(q) = nbrs[d] {
                if !self.rooms.contains_key(&q) && self.can_place_room(room, q) {
                    insert_sorted(r, q);
                }
            }
            proof {
                assert forall|q: Pos|
                    #[trigger] r@.contains(q) <==> (start.contains(q) || ((exists|e: int| 0 <= e < d + 1 && #[trigger] neighbor(p, e) == Some(q))
                        && fits_free(self.rooms@, *room, q))) by {
                    if neighbor(p, d as int) == Some(q) {
                        assert(exists|e: int| 0 <= e < d + 1 && #[trigger] neighbor(p, e) == Some(q));
                    }
                    if exists|e: int| 0 <= e < d + 1 && #[trigger] neighbor(p, e) == Some(q) {
                        let e = choose|e: int| 0 <= e < d + 1 && #[trigger] neighbor(p, e) == Some(q);
                        if e < d {
                            assert(exists|e: int| 0 <= e < d && #[trigger] neighbor(p, e) == Some(q));
                        }
                    }
                }
            }
        }
    }

    /// The free positions where `room` may be placed.
    pub fn possible_placements(&self, room: &PlacedRoom) -> (r: Vec<Pos>)
        ensures
            r@.no_duplicates(),
            forall|q: Pos| #[trigger] r@.contains(q) <==> fits_free(self.rooms@, *room, q),
            sorted_by(r@, pos_order()),
            r@ == listing_by(Set::new(|q: Pos| fits_free(self.rooms@, *room, q)), pos_order()),
    {
        let keys = self.positions();
        let mut r: Vec<Pos> = Vec::new();
        for k in 0..keys.len()
            invariant
                keys@.to_set() == self.rooms@.dom(),
                sorted_by(r@, pos_order()),
                forall|q: Pos|
                    #[trigger] r@.contains(q) <==> ((exists|a: int| 0 <= a < k && #[trigger] next_to(keys@[a], q))
                        && fits_free(self.rooms@, *room, q)),
        {
            let ghost before = r@;
            self.add_placements_around(room, keys[k], &mut r);
            proof {
                assert forall|q: Pos|
                    #[trigger] r@.contains(q) <==> ((exists|a: int| 0 <= a < k + 1 && #[trigger] next_to(keys@[a], q))
                        && fits_free(self.rooms@, *room, q)) by {
                    if next_to(keys@[k as int], q) {
                        assert(exists|a: int| 0 <= a < k + 1 && #[trigger] next_to(keys@[a], q));
                    }
                    if exists|a: int| 0 <= a < k + 1 && #[trigger] next_to(keys@[a], q) {
                        let a = choose|a: int| 0 <= a < k + 1 && #[trigger] next_to(keys@[a], q);
                        if a < k {
                            assert(exists|a: int| 0 <= a < k && #[trigger] next_to(keys@[a], q));
                        }
                    }
                }
            }
        }
        proof {
            assert forall|q: Pos| #[trigger] fits_free(self.rooms@, *room, q) implies r@.contains(q) by {
                lemma_placement_beside(self.rooms@, *room, q);
                let p = choose|p: Pos| self.rooms@.contains_key(p) && #[trigger] next_to(p, q);
                assert(keys@.to_set().contains(p));
                let a = choose|a: int| 0 <= a < keys@.len() && keys@[a] == p;
                assert(next_to(keys@[a], q));
            }
            lemma_pos_orders_total();
            lemma_sorted_distinct(r@, pos_order());
            assert(r@.to_set() =~= Set::new(|q: Pos| fits_free(self.rooms@, *room, q)));
            lemma_listing(r@, pos_order());
        }
        r
    }
}

impl Castle {
    /// Where the room at `from` may move, turned to `rotation`: nowhere unless
    /// it is an outer room.
    pub fn possible_moves(&self, from: Pos, rotation: u16) -> (r: Vec<Pos>)
        ensures
            r@.no_duplicates(),
            forall|q: Pos| #[trigger] r@.contains(q) <==> move_fits(self.rooms@, from, q, rotation),
            sorted_by(r@, pos_order()),
            r@ == listing_by(Set::new(|q: Pos| move_fits(self.rooms@, from, q, rotation)), pos_order()),
    {
        proof {
            lemma_pos_orders_total();
        }
        if let Ok(true) = self.room_is_outer(from) {
            let mut castle = self.clone();
            let room = castle.rooms.remove(&from).unwrap();
            let placements = castle.possible_placements(&room.rotate(rotation));
            let r = select(&placements, from, false);
            proof {
                assert(r@.to_set() =~= Set::new(|q: Pos| move_fits(self.rooms@, from, q, rotation)));
                lemma_listing(r@, pos_order());
            }
            r
        } else {
            let r: Vec<Pos> = Vec::new();
            proof {
                assert(r@.to_set() =~= Set::new(|q: Pos| move_fits(self.rooms@, from, q, rotation)));
                lemma_listing(r@, pos_order());
            }
            r
        }
    }

    /// The positions whose room may change places with the room at `from`.
    pub fn possible_swaps(&self, from: Pos) -> (r: Vec<Pos>)
        ensures
            r@.no_duplicates(),
            forall|q: Pos| #[trigger] r@.contains(q) <==> swap_fits(self.rooms@, from, q),
            sorted_by(r@, pos_order()),
            r@ == listing_by(Set::new(|q: Pos| swap_fits(self.rooms@, from, q)), pos_order()),
    {
        proof {
            lemma_pos_orders_total();
        }
        let mut r: Vec<Pos> = Vec::new();
        if !self.rooms.contains_key(&from) {
            proof {
                assert(r@.to_set() =~= Set::new(|q: Pos| swap_fits(self.rooms@, from, q)));
                lemma_listing(r@, pos_order());
            }
            return r;
        }
        let keys = self.positions();
        for i in 0..keys.len()
            invariant
                self.rooms@.contains_key(from),
                keys@.to_set() == self.rooms@.dom(),
                keys@.no_duplicates(),
                sorted_by(keys@, pos_order()),
                sorted_by(r@, pos_order()),
                r@.no_duplicates(),
                forall|q: Pos| #[trigger] r@.contains(q) <==> (keys@.take(i as int).contains(q) && swap_fits(self.rooms@, from, q)),
        {
            let ghost before = r@;
            let q = keys[i];
            assert(keys@.to_set().contains(q));
            let fits = (q.0 != from.0 || q.1 != from.1) && self.swapped(from, q).is_some();
            proof {
                assert(fits == swap_fits(self.rooms@, from, q));
                assert(!keys@.take(i as int).contains(q)) by {
                    if keys@.take(i as int).contains(q) {
                        let j = choose|j: int| 0 <= j < i && keys@.take(i as int)[j] == q;
                        assert(keys@[j] == keys@[i as int]);
                    }
                }
                assert(!before.contains(q));
                lemma_before(keys@, before, i as int, pos_order());
                lemma_push_sorted(before, q, pos_order());
            }
            if fits {
                r.push(q);
            }
            proof {
                assert(keys@.take(i + 1) =~= keys@.take(i as int).push(q));
                assert forall|y: Pos| #[trigger] r@.contains(y) <==> (keys@.take(i + 1).contains(y) && swap_fits(self.rooms@, from, y)) by {
                    if fits {
                        if r@.contains(y) && y != q {
                            let j = choose|j: int| 0 <= j < r@.len() && r@[j] == y;
                            assert(before[j] == y);
                        }
                        if before.contains(y) {
                            let j = choose|j: int| 0 <= j < before.len() && before[j] == y;
                            assert(r@[j] == y);
                        }
                        if y == q {
                            assert(r@[r@.len() - 1] == q);
                        }
                    }
                    if keys@.take(i + 1).contains(y) && y != q {
                        let j = choose|j: int| 0 <= j < i + 1 && #[trigger] keys@.take(i + 1)[j] == y;
                        assert(keys@.take(i as int)[j] == y);
                    }
                    if keys@.take(i as int).contains(y) {
                        let j = choose|j: int| 0 <= j < i && #[trigger] keys@.take(i as int)[j] == y;
                        assert(keys@.take(i + 1)[j] == y);
                    }
                    if y == q {
                        assert(keys@.take(i + 1)[i as int] == q);
                    }
                }
            }
        }
        proof {
            assert(keys@.take(keys@.len() as int) =~= keys@);
            assert forall|q: Pos| #[trigger] swap_fits(self.rooms@, from, q) implies keys@.contains(q) by {
                assert(keys@.to_set().contains(q));
            }
            assert(r@.to_set() =~= Set::new(|q: Pos| swap_fits(self.rooms@, from, q)));
            lemma_listing(r@, pos_order());
        }
        r
    }
}

impl Castle {
    /// Every placement of a room of `shop`, unturned, as (index in the shop,
    /// position).
    pub fn all_possible_placements(&self, shop: &Vec<Room>) -> (r: Vec<(usize, Pos)>)
        ensures
            r@.no_duplicates(),
            forall|i: usize, q: Pos| #[trigger] r@.contains((i, q)) <==> (i < shop@.len() && fits_free(
                self.rooms@,
                PlacedRoom { info: shop@[i as int], rotation: 0 },
                q,
            )),
            sorted_by(r@, index_pos_order()),
            r@ == listing_by(placement_set(self@, shop@), index_pos_order()),
    {
        proof {
            lemma_pos_orders_total();
        }
        let mut possible: Vec<(usize, Pos)> = Vec::new();
        for i in 0..shop.len()
            invariant
                possible@.no_duplicates(),
                forall|j: usize, q: Pos| #[trigger] possible@.contains((j, q)) <==> (j < i && fits_free(
                    self.rooms@,
                    PlacedRoom { info: shop@[j as int], rotation: 0 },
                    q,
                )),
                sorted_by(possible@, index_pos_order()),
                forall|k: int| 0 <= k < possible@.len() ==> (#[trigger] possible@[k]).0 < i,
        {
            let placements = self.possible_placements(&PlacedRoom::from(shop[i].clone(), 0));
            let ghost before = possible@;
            pair_with(&mut possible, i, &placements);
            proof {
                let block = placements@.map_values(|q: Pos| (i, q));
                assert(sorted_by(block, index_pos_order())) by {
                    assert forall|a: int, b: int| 0 <= a < b < block.len() implies #[trigger] index_pos_order()(block[a], block[b]) by {
                        assert(pos_order()(placements@[a], placements@[b]));
                    }
                }
                assert forall|a: int, b: int| 0 <= a < before.len() && 0 <= b < block.len() implies #[trigger] index_pos_order()(
                    before[a],
                    block[b],
                ) by {
                    assert(before[a].0 < i);
                }
                lemma_concat_sorted(before, block, index_pos_order());
                assert forall|k: int| 0 <= k < possible@.len() implies (#[trigger] possible@[k]).0 < i + 1 by {
                    if k >= before.len() {
                        assert(possible@[k] == block[k - before.len()]);
                    }
                }
            }
        }
        proof {
            assert(possible@.to_set() =~= placement_set(self@, shop@));
            lemma_listing(possible@, index_pos_order());
        }
        possible
    }

    /// Every move of an outer room, unturned, as (from, to).
    pub fn all_possible_moves(&self) -> (r: Vec<(Pos, Pos)>)
        ensures
            r@.no_duplicates(),
            forall|f: Pos, t: Pos| #[trigger] r@.contains((f, t)) <==> move_fits(self.rooms@, f, t, 0),
            sorted_by(r@, pos_pair_order()),
            r@ == listing_by(move_set(self@), pos_pair_order()),
    {
        proof {
            lemma_pos_orders_total();
        }
        let keys = self.positions();
        let mut possible: Vec<(Pos, Pos)> = Vec::new();
        for i in 0..keys.len()
            invariant
                keys@.to_set() == self.rooms@.dom(),
                keys@.no_duplicates(),
                sorted_by(keys@, pos_order()),
                sorted_by(possible@, pos_pair_order()),
                possible@.no_duplicates(),
                forall|f: Pos, t: Pos| #[trigger] possible@.contains((f, t)) <==> (keys@.take(i as int).contains(f) && move_fits(self.rooms@, f, t, 0)),
        {
            let from = keys[i];
            let moves = self.possible_moves(from, 0);
            let ghost before = possible@;
            proof {
                block_after(keys@, before, moves@, i as int);
                assert(!keys@.take(i as int).contains(from)) by {
                    if keys@.take(i as int).contains(from) {
                        let j = choose|j: int| 0 <= j < i && keys@.take(i as int)[j] == from;
                        assert(keys@[j] == keys@[i as int]);
                    }
                }
                assert(keys@.take(i + 1) =~= keys@.take(i as int).push(from));
            }
            pair_with(&mut possible, from, &moves);
            proof {
                assert forall|f: Pos| #[trigger] keys@.take(i + 1).contains(f) <==> (keys@.take(i as int).contains(f) || f == from) by {
                    if keys@.take(i + 1).contains(f) && f != from {
                        let j = choose|j: int| 0 <= j < i + 1 && #[trigger] keys@.take(i + 1)[j] == f;
                        assert(keys@.take(i as int)[j] == f);
                    }
                    if keys@.take(i as int).contains(f) {
                        let j = choose|j: int| 0 <= j < i && #[trigger] keys@.take(i as int)[j] == f;
                        assert(keys@.take(i + 1)[j] == f);
                    }
                    if f == from {
                        assert(keys@.take(i + 1)[i as int] == from);
                    }
                }
            }
        }
        proof {
            assert(keys@.take(keys@.len() as int) =~= keys@);
            assert forall|f: Pos, t: Pos| #[trigger] move_fits(self.rooms@, f, t, 0) implies keys@.contains(f) by {
                assert(keys@.to_set().contains(f));
            }
            assert(possible@.to_set() =~= move_set(self@));
            lemma_listing(possible@, pos_pair_order());
        }
        possible
    }

    /// Every exchange of two rooms, each pair once, the smaller position first.
    pub fn all_possible_swaps(&self) -> (r: Vec<(Pos, Pos)>)
        ensures
            r@.no_duplicates(),
            forall|p1: Pos, p2: Pos| #[trigger] r@.contains((p1, p2)) <==> (pos_lt(p1, p2) && swap_fits(self.rooms@, p1, p2)),
            sorted_by(r@, pos_pair_order()),
            r@ == listing_by(swap_set(self@), pos_pair_order()),
    {
        proof {
            lemma_pos_orders_total();
        }
        let keys = self.positions();
        let mut possible: Vec<(Pos, Pos)> = Vec::new();
        for i in 0..keys.len()
            invariant
                keys@.to_set() == self.rooms@.dom(),
                keys@.no_duplicates(),
                sorted_by(keys@, pos_order()),
                sorted_by(possible@, pos_pair_order()),
                possible@.no_duplicates(),
                forall|p1: Pos, p2: Pos| #[trigger] possible@.contains((p1, p2)) <==> (keys@.take(i as int).contains(p1) && pos_lt(p1, p2)
                    && swap_fits(self.rooms@, p1, p2)),
        {
            let pos_1 = keys[i];
            let swaps = self.possible_swaps(pos_1);
            let later = select(&swaps, pos_1, true);
            let ghost before = possible@;
            proof {
                block_after(keys@, before, later@, i as int);
                assert(!keys@.take(i as int).contains(pos_1)) by {
                    if keys@.take(i as int).contains(pos_1) {
                        let j = choose|j: int| 0 <= j < i && keys@.take(i as int)[j] == pos_1;
                        assert(keys@[j] == keys@[i as int]);
                    }
                }
                assert(keys@.take(i + 1) =~= keys@.take(i as int).push(pos_1));
            }
            pair_with(&mut possible, pos_1, &later);
            proof {
                assert forall|f: Pos| #[trigger] keys@.take(i + 1).contains(f) <==> (keys@.take(i as int).contains(f) || f == pos_1) by {
                    if keys@.take(i + 1).contains(f) && f != pos_1 {
                        let j = choose|j: int| 0 <= j < i + 1 && #[trigger] keys@.take(i + 1)[j] == f;
                        assert(keys@.take(i as int)[j] == f);
                    }
                    if keys@.take(i as int).contains(f) {
                        let j = choose|j: int| 0 <= j < i && #[trigger] keys@.take(i as int)[j] == f;
                        assert(keys@.take(i + 1)[j] == f);
                    }
                    if f == pos_1 {
                        assert(keys@.take(i + 1)[i as int] == pos_1);
                    }
                }
            }
        }
        proof {
            assert(keys@.take(keys@.len() as int) =~= keys@);
            assert forall|p1: Pos, p2: Pos| #[trigger] swap_fits(self.rooms@, p1, p2) implies keys@.contains(p1) by {
                assert(keys@.to_set().contains(p1));
            }
            assert(possible@.to_set() =~= swap_set(self@));
            lemma_listing(possible@, pos_pair_order());
        }
        possible
    }
}

impl Castle {
    /// The actions a player may take, given the rooms of `shop` for sale.
    pub fn possible_actions(&self, shop: &Vec<Room>) -> (r: Vec<Action>)
        ensures
            forall|k: int| 0 <= k < r@.len() ==> offered(self@, shop@, #[trigger] r@[k]),
            self.damage > 0 ==> forall|s: Seq<Pos>| #[trigger] discard_path(self@, s) ==> exists|k: int|
                0 <= k < r@.len() && #[trigger] r@[k] is Discard && r@[k]->Discard_0@ == s,
            self.damage == 0 ==> forall|a: Action| #[trigger] offered(self@, shop@, a) ==> r@.contains(a),
            self.damage == 0 ==> r@ == offered_list(self@, shop@),
            self.damage > 0 ==> r@.len() == discard_list(self@).len() && forall|k: int|
                0 <= k < r@.len() ==> #[trigger] r@[k] is Discard && r@[k]->Discard_0@ == discard_list(self@)[k],
            (self.damage > 0 || shop@.no_duplicates()) ==> r@.no_duplicates(),
    {
        let mut r: Vec<Action> = Vec::new();
        if self.damage > 0 {
            let discards = self.all_possible_discards();
            for k in 0..discards.len()
                invariant
                    self.damage > 0,
                    forall|j: int| 0 <= j < discards@.len() ==> discard_path(self@, #[trigger] discards@[j]@),
                    r@.len() == k,
                    forall|j: int| 0 <= j < k ==> #[trigger] r@[j] is Discard && r@[j]->Discard_0@ == discards@[j]@,
            {
                r.push(Action::Discard(copy_positions(&discards[k])));
            }
            proof {
                assert forall|k: int| 0 <= k < r@.len() implies #[trigger] r@[k] is Discard && r@[k]->Discard_0@ == discard_list(self@)[k] by {
                    assert(r@[k]->Discard_0@ == discards@.map_values(|v: Vec<Pos>| v@)[k]);
                }
                assert forall|a: int, b: int| 0 <= a < r@.len() && 0 <= b < r@.len() && a != b implies r@[a] != r@[b] by {
                    lemma_path_order_total();
                    if a < b {
                        assert(path_lt(discards@[a]@, discards@[b]@));
                        assert(!path_order()(discards@[a]@, discards@[a]@));
                    } else {
                        assert(path_lt(discards@[b]@, discards@[a]@));
                        assert(!path_order()(discards@[b]@, discards@[b]@));
                    }
                }
                assert forall|s: Seq<Pos>| #[trigger] discard_path(self@, s) implies exists|k: int|
                    0 <= k < r@.len() && #[trigger] r@[k] is Discard && r@[k]->Discard_0@ == s by {
                    let k = choose|k: int| 0 <= k < discards@.len() && #[trigger] discards@[k]@ == s;
                    assert(r@[k] is Discard && r@[k]->Discard_0@ == s);
                }
            }
            return r;
        }
        let placements = self.all_possible_placements(shop);
        for k in 0..placements.len()
            invariant
                self.damage == 0,
                forall|i: usize, q: Pos| #[trigger] placements@.contains((i, q)) <==> (i < shop@.len() && fits_free(
                    self.rooms@,
                    PlacedRoom { info: shop@[i as int], rotation: 0 },
                    q,
                )),
                r@.len() == k,
                forall|j: int| 0 <= j < k ==> #[trigger] r@[j] == Action::Place(shop@[placements@[j].0 as int], placements@[j].1, 0),
        {
            let (i, pos) = placements[k];
            assert(placements@.contains(placements@[k as int]));
            r.push(Action::Place(shop[i].clone(), pos, 0));
        }
        let base_moves = r.len();
        let moves = self.all_possible_moves();
        for k in 0..moves.len()
            invariant
                r@.len() == base_moves + k,
                forall|j: int| 0 <= j < k ==> #[trigger] r@[base_moves + j] == Action::Move(moves@[j].0, moves@[j].1, 0),
                forall|j: int| 0 <= j < base_moves ==> #[trigger] r@[j] == Action::Place(shop@[placements@[j].0 as int], placements@[j].1, 0),
                base_moves == placements@.len(),
                placements@ == listing_by(placement_set(self@, shop@), index_pos_order()),
                placements@.no_duplicates(),
                forall|i: usize, q: Pos| #[trigger] placements@.contains((i, q)) <==> (i < shop@.len() && fits_free(
                    self.rooms@,
                    PlacedRoom { info: shop@[i as int], rotation: 0 },
                    q,
                )),
        {
            let (from, to) = moves[k];
            r.push(Action::Move(from, to, 0));
        }
        let base_swaps = r.len();
        let swaps = self.all_possible_swaps();
        for k in 0..swaps.len()
            invariant
                r@.len() == base_swaps + k,
                forall|j: int| 0 <= j < k ==> #[trigger] r@[base_swaps + j] == Action::Swap(swaps@[j].0, swaps@[j].1),
                forall|j: int| 0 <= j < moves@.len() ==> #[trigger] r@[base_moves + j] == Action::Move(moves@[j].0, moves@[j].1, 0),
                forall|j: int| 0 <= j < base_moves ==> #[trigger] r@[j] == Action::Place(shop@[placements@[j].0 as int], placements@[j].1, 0),
                base_moves == placements@.len(),
                base_swaps == base_moves + moves@.len(),
                placements@ == listing_by(placement_set(self@, shop@), index_pos_order()),
                placements@.no_duplicates(),
                moves@ == listing_by(move_set(self@), pos_pair_order()),
                moves@.no_duplicates(),
                forall|i: usize, q: Pos| #[trigger] placements@.contains((i, q)) <==> (i < shop@.len() && fits_free(
                    self.rooms@,
                    PlacedRoom { info: shop@[i as int], rotation: 0 },
                    q,
                )),
                forall|f: Pos, t: Pos| #[trigger] moves@.contains((f, t)) <==> move_fits(self.rooms@, f, t, 0),
                forall|p1: Pos, p2: Pos| #[trigger] swaps@.contains((p1, p2)) <==> (pos_lt(p1, p2) && swap_fits(self.rooms@, p1, p2)),
        {
            let (pos_1, pos_2) = swaps[k];
            r.push(Action::Swap(pos_1, pos_2));
        }
        proof {
            assert forall|k: int| 0 <= k < r@.len() implies offered(self@, shop@, #[trigger] r@[k]) by {
                if k < base_moves {
                    let (i, q) = placements@[k];
                    assert(placements@.contains((i, q)));
                } else if k < base_swaps {
                    let (f, t) = moves@[k - base_moves];
                    assert(r@[base_moves + (k - base_moves)] == Action::Move(f, t, 0));
                    assert(moves@.contains((f, t)));
                } else {
                    let (p1, p2) = swaps@[k - base_swaps];
                    assert(r@[base_swaps + (k - base_swaps)] == Action::Swap(p1, p2));
                    assert(swaps@.contains((p1, p2)));
                }
            }
            assert forall|a: Action| #[trigger] offered(self@, shop@, a) implies r@.contains(a) by {
                match a {
                    Action::Place(room, pos, rot) => {
                        let i = choose|i: int| 0 <= i < shop@.len() && #[trigger] shop@[i] == room;
                        assert(shop@.len() == shop.len());
                        assert(placements@.contains((i as usize, pos)));
                        let j = choose|j: int| 0 <= j < placements@.len() && placements@[j] == (i as usize, pos);
                        assert(r@[j] == a);
                    },
                    Action::Move(from, to, rot) => {
                        assert(moves@.contains((from, to)));
                        let j = choose|j: int| 0 <= j < moves@.len() && moves@[j] == (from, to);
                        assert(r@[base_moves + j] == a);
                    },
                    Action::Swap(p1, p2) => {
                        assert(swaps@.contains((p1, p2)));
                        let j = choose|j: int| 0 <= j < swaps@.len() && swaps@[j] == (p1, p2);
                        assert(r@[base_swaps + j] == a);
                    },
                    _ => {},
                }
            }
            let pl = placements@.map_values(|x: (usize, Pos)| Action::Place(shop@[x.0 as int], x.1, 0));
            let mv = moves@.map_values(|x: (Pos, Pos)| Action::Move(x.0, x.1, 0));
            let sw = swaps@.map_values(|x: (Pos, Pos)| Action::Swap(x.0, x.1));
            assert forall|k: int| 0 <= k < r@.len() implies #[trigger] r@[k] == (pl + mv + sw)[k] by {
                if k < base_moves {
                } else if k < base_swaps {
                    assert(r@[base_moves + (k - base_moves)] == mv[k - base_moves]);
                } else {
                    assert(r@[base_swaps + (k - base_swaps)] == sw[k - base_swaps]);
                }
            }
            assert(r@ =~= pl + mv + sw);
            if shop@.no_duplicates() {
                assert forall|a: int, b: int| 0 <= a < b < r@.len() implies r@[a] != r@[b] by {
                    if b < base_moves {
                        if r@[a] == r@[b] {
                            let (i1, q1) = placements@[a];
                            let (i2, q2) = placements@[b];
                            assert(placements@.contains((i1, q1)));
                            assert(placements@.contains((i2, q2)));
                            assert(shop@[i1 as int] == shop@[i2 as int]);
                            assert(i1 == i2);
                            assert(placements@[a] == placements@[b]);
                        }
                    } else if a >= base_moves && b < base_swaps {
                        assert(r@[base_moves + (a - base_moves)] == mv[a - base_moves]);
                        assert(r@[base_moves + (b - base_moves)] == mv[b - base_moves]);
                        if r@[a] == r@[b] {
                            assert(moves@[a - base_moves] == moves@[b - base_moves]);
                        }
                    } else if a >= base_swaps {
                        assert(r@[base_swaps + (a - base_swaps)] == sw[a - base_swaps]);
                        assert(r@[base_swaps + (b - base_swaps)] == sw[b - base_swaps]);
                        if r@[a] == r@[b] {
                            assert(swaps@[a - base_swaps] == swaps@[b - base_swaps]);
                        }
                    } else if b >= base_swaps {
                        assert(r@[base_swaps + (b - base_swaps)] == sw[b - base_swaps]);
                    } else {
                        assert(r@[base_moves + (b - base_moves)] == mv[b - base_moves]);
                    }
                }
            }
        }
        r
    }
}

} // verus!
