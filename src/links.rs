use crate::castle::{consistent, connecting, edge, is_powered, neighbor, opposite, Castle, PlacedRoom, Pos};
use crate::room::connection::{linked, Connection};
use vstd::prelude::*;
use vstd::set::fold::is_fun_commutative;
use vstd::set_lib::{lemma_len_subset, lemma_map_size, set_int_range, lemma_int_range};

verus! {

broadcast use vstd::std_specs::btree::group_btree_axioms, vstd::laws_cmp::group_laws_cmp;

/// Which tally a link counts toward: diamond, cross, moon and wild links are
/// kinds 0, 1, 2 and 3; no link is kind 4.
pub open spec fn kind_of(c: Connection) -> int {
    match c {
        Connection::Diamond(_) => 0,
        Connection::Cross(_) => 1,
        Connection::Moon(_) => 2,
        Connection::Wild => 3,
        Connection::Empty => 4,
    }
}

/// Whether edge `i` of the room at `p` meets a neighbour with a link of kind `k`.
pub open spec fn link_is(rooms: Map<Pos, PlacedRoom>, p: Pos, i: int, k: int) -> bool {
    match neighbor(p, i) {
        Some(q) => rooms.contains_key(q) && match linked(rooms[p].conns()[i], rooms[q].conns()[opposite(i)]) {
            Ok(l) => kind_of(l) == k,
            Err(_) => false,
        },
        None => false,
    }
}

/// How many of the first `n` edges of the room at `p` carry a link of kind `k`.
pub open spec fn links_upto(rooms: Map<Pos, PlacedRoom>, p: Pos, k: int, n: int) -> nat
    decreases n,
{
    if n <= 0 {
        0
    } else {
        links_upto(rooms, p, k, n - 1) + if link_is(rooms, p, n - 1, k) {
            1nat
        } else {
            0nat
        }
    }
}

pub open spec fn add_links(rooms: Map<Pos, PlacedRoom>, k: int) -> spec_fn(nat, Pos) -> nat {
    |acc: nat, p: Pos| acc + links_upto(rooms, p, k, 4)
}

/// The number of links of kind `k` in the castle, each counted from both of
/// its ends.
pub open spec fn link_ends(rooms: Map<Pos, PlacedRoom>, k: int) -> nat {
    rooms.dom().fold(0nat, add_links(rooms, k))
}

/// The number of links of kind `k` in the castle.
pub open spec fn link_count(rooms: Map<Pos, PlacedRoom>, k: int) -> nat {
    link_ends(rooms, k) / 2
}

/// What the room at `p` adds to the castle's treasure: its treasure when it
/// is powered, nothing otherwise.
pub open spec fn treasure_of(rooms: Map<Pos, PlacedRoom>, p: Pos) -> nat {
    if is_powered(rooms, p) {
        rooms[p].info.treasure as nat
    } else {
        0
    }
}

pub open spec fn add_treasure(rooms: Map<Pos, PlacedRoom>) -> spec_fn(nat, Pos) -> nat {
    |acc: nat, p: Pos| acc + treasure_of(rooms, p)
}

/// The treasure of all powered rooms.
pub open spec fn treasure_total(rooms: Map<Pos, PlacedRoom>) -> nat {
    rooms.dom().fold(0nat, add_treasure(rooms))
}

/// A grid of `i8` coordinates holds at most 65536 cells.
pub proof fn lemma_positions_bounded(s: Set<Pos>)
    requires
        s.finite(),
    ensures
        s.len() <= 65536,
{
    let f = |p: Pos| (p.0 as int + 128) * 256 + (p.1 as int + 128);
    assert forall|a: Pos, b: Pos| s.contains(a) && s.contains(b) && #[trigger] f(a) == #[trigger] f(b) implies a == b by {
        let (a0, a1, b0, b1) = (a.0 as int + 128, a.1 as int + 128, b.0 as int + 128, b.1 as int + 128);
        assert(0 <= a1 < 256 && 0 <= b1 < 256 && 0 <= a0 && 0 <= b0);
        assert(a0 * 256 + a1 == b0 * 256 + b1 ==> a0 == b0 && a1 == b1) by (nonlinear_arith)
            requires
                0 <= a1 < 256,
                0 <= b1 < 256,
                0 <= a0,
                0 <= b0,
        ;
    }
    lemma_map_size(s, s.map(f), f);
    assert forall|x: int| s.map(f).contains(x) implies set_int_range(0, 65536).contains(x) by {
        let p = choose|p: Pos| s.contains(p) && f(p) == x;
        let (p0, p1) = (p.0 as int + 128, p.1 as int + 128);
        assert(0 <= p0 * 256 + p1 < 65536) by (nonlinear_arith)
            requires
                0 <= p0 < 256,
                0 <= p1 < 256,
        ;
    }
    lemma_int_range(0, 65536);
    lemma_len_subset(s.map(f), set_int_range(0, 65536));
}

/// Folding one more element of a sequence without duplicates into a sum.
proof fn lemma_fold_next(s: Seq<Pos>, i: int, f: spec_fn(nat, Pos) -> nat)
    requires
        s.no_duplicates(),
        0 <= i < s.len(),
        is_fun_commutative(f),
    ensures
        s.take(i + 1).to_set().fold(0nat, f) == f(s.take(i).to_set().fold(0nat, f), s[i]),
{
    broadcast use vstd::seq_lib::seq_to_set_is_finite;

    assert(s.take(i + 1) =~= s.take(i).push(s[i]));
    s.take(i).lemma_push_to_set_commute(s[i]);
    assert(!s.take(i).to_set().contains(s[i])) by {
        if s.take(i).to_set().contains(s[i]) {
            let j = choose|j: int| 0 <= j < i && s.take(i)[j] == s[i];
            assert(s[j] == s[i]);
        }
    }
    vstd::set::fold::lemma_fold_insert(s.take(i).to_set(), 0nat, f, s[i]);
}

impl Castle {
    /// The links of each kind at the edges of the room at `pos`.
    fn room_links(&self, pos: Pos) -> (r: [u32; 4])
        requires
            consistent(self.rooms@),
            self.rooms@.contains_key(pos),
        ensures
            forall|k: int| 0 <= k < 4 ==> r@[k] == links_upto(self.rooms@, pos, k, 4),
            forall|k: int| 0 <= k < 4 ==> r@[k] <= 4,
    {
        let mut counts: [u32; 4] = [0, 0, 0, 0];
        let room = self.rooms.get(&pos).unwrap();
        let conns = room.get_connections();
        let nbrs = connecting(pos);
        for i in 0..4usize
            invariant
                consistent(self.rooms@),
                self.rooms@.contains_key(pos),
                *room == self.rooms@[pos],
                conns@ == self.rooms@[pos].conns(),
                forall|j: int| 0 <= j < 4 ==> nbrs@[j] == neighbor(pos, j),
                forall|k: int| 0 <= k < 4 ==> counts@[k] == links_upto(self.rooms@, pos, k, i as int),
                forall|k: int| 0 <= k < 4 ==> counts@[k] <= i,
        {
            let ghost before = counts@;
            if let Some(q) = nbrs[i] {
                if let Some(other) = self.rooms.get(&q) {
                    let oc = other.get_connections();
                    assert(edge(self.rooms@, self.rooms@[pos], pos, i as int) != Some(false));
                    if let Ok(l) = conns[i].link(&oc[(i + 2) % 4]) {
                        match l {
                            Connection::Diamond(_) => counts[0] = counts[0] + 1,
                            Connection::Cross(_) => counts[1] = counts[1] + 1,
                            Connection::Moon(_) => counts[2] = counts[2] + 1,
                            Connection::Wild => counts[3] = counts[3] + 1,
                            Connection::Empty => {},
                        }
                    }
                }
            }
            assert forall|k: int| 0 <= k < 4 implies counts@[k] == links_upto(self.rooms@, pos, k, i + 1) by {
                assert(counts@[k] == before[k] + if link_is(self.rooms@, pos, i as int, k) { 1int } else { 0int });
            }
        }
        counts
    }

    /// The number of diamond, cross, moon and wild links in the castle.
    ///
    /// The castle must be consistent: where an open edge faces a wall the
    /// castle is corrupt and has no link count.
    pub fn get_links(&self) -> (r: (u32, u32, u32, u32))
        requires
            consistent(self.rooms@),
        ensures
            r.0 == link_count(self.rooms@, 0),
            r.1 == link_count(self.rooms@, 1),
            r.2 == link_count(self.rooms@, 2),
            r.3 == link_count(self.rooms@, 3),
    {
        let keys = self.positions();
        let mut ends: [u32; 4] = [0, 0, 0, 0];
        proof {
            lemma_positions_bounded(self.rooms@.dom());
            assert forall|k: int| 0 <= k < 4 implies is_fun_commutative(#[trigger] add_links(self.rooms@, k)) by {
                assert forall|a1: Pos, a2: Pos, b: nat| #[trigger] add_links(self.rooms@, k)(add_links(self.rooms@, k)(b, a2), a1)
                    == add_links(self.rooms@, k)(add_links(self.rooms@, k)(b, a1), a2) by {}
            }
            assert(keys@.take(0).to_set() =~= Set::<Pos>::empty());
            assert forall|k: int| 0 <= k < 4 implies ends@[k] == Set::<Pos>::empty().fold(0nat, add_links(self.rooms@, k)) by {
                vstd::set::fold::lemma_fold_empty(0nat, add_links(self.rooms@, k));
            }
        }
        for i in 0..keys.len()
            invariant
                consistent(self.rooms@),
                keys@.no_duplicates(),
                keys@.to_set() == self.rooms@.dom(),
                keys@.len() == self.rooms@.len(),
                keys@.len() <= 65536,
                forall|k: int| 0 <= k < 4 ==> is_fun_commutative(#[trigger] add_links(self.rooms@, k)),
                forall|k: int| 0 <= k < 4 ==> ends@[k] == keys@.take(i as int).to_set().fold(0nat, add_links(self.rooms@, k)),
                forall|k: int| 0 <= k < 4 ==> ends@[k] <= 4 * i,
        {
            let p = keys[i];
            assert(keys@.to_set().contains(keys@[i as int]));
            let here = self.room_links(p);
            let ghost before = ends@;
            ends[0] = ends[0] + here[0];
            ends[1] = ends[1] + here[1];
            ends[2] = ends[2] + here[2];
            ends[3] = ends[3] + here[3];
            proof {
                assert forall|k: int| 0 <= k < 4 implies ends@[k] == keys@.take(i + 1).to_set().fold(0nat, add_links(self.rooms@, k)) by {
                    lemma_fold_next(keys@, i as int, add_links(self.rooms@, k));
                    assert(ends@[k] == before[k] + here@[k]);
                }
            }
        }
        proof {
            assert(keys@.take(keys@.len() as int) =~= keys@);
        }
        (ends[0] / 2, ends[1] / 2, ends[2] / 2, ends[3] / 2)
    }

    /// The treasure of all powered rooms.
    pub fn get_treasure(&self) -> (r: u32)
        ensures
            r == treasure_total(self.rooms@),
    {
        let keys = self.positions();
        let mut treasure: u32 = 0;
        proof {
            lemma_positions_bounded(self.rooms@.dom());
            let f = add_treasure(self.rooms@);
            assert forall|a1: Pos, a2: Pos, b: nat| #[trigger] f(f(b, a2), a1) == f(f(b, a1), a2) by {}
            assert(keys@.take(0).to_set() =~= Set::<Pos>::empty());
            vstd::set::fold::lemma_fold_empty(0nat, f);
        }
        for i in 0..keys.len()
            invariant
                keys@.no_duplicates(),
                keys@.to_set() == self.rooms@.dom(),
                keys@.len() == self.rooms@.len(),
                keys@.len() <= 65536,
                is_fun_commutative(add_treasure(self.rooms@)),
                treasure == keys@.take(i as int).to_set().fold(0nat, add_treasure(self.rooms@)),
                treasure <= 255 * i,
        {
            let p = keys[i];
            assert(keys@.to_set().contains(keys@[i as int]));
            let room = self.rooms.get(&p).unwrap();
            let ghost before = treasure;
            if room.info.treasure > 0 {
                if let Ok(true) = self.room_is_powered(p) {
                    treasure = treasure + room.info.treasure as u32;
                }
            }
            proof {
                lemma_fold_next(keys@, i as int, add_treasure(self.rooms@));
            }
        }
        proof {
            assert(keys@.take(keys@.len() as int) =~= keys@);
        }
        treasure
    }
}

} // verus!
