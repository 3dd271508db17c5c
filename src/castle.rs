use crate::error::CastleError;
use crate::room::connection::{connects, linked, powered, Connection};
use crate::room::{rotated, rotation_steps, Room};
use std::collections::BTreeMap;
use vstd::std_specs::btree::spec_keys_iter;
use vstd::std_specs::iter::IteratorSpec;
use vstd::std_specs::cmp::OrdSpec;
use crate::order::{pos_order, sorted_by};
use vstd::prelude::*;

verus! {

broadcast use vstd::std_specs::btree::group_btree_axioms, vstd::laws_cmp::group_laws_cmp;

/// A cell of the grid, as (x, y); y grows southwards.
pub type Pos = (i8, i8);

/// A rotation in degrees.
pub type Rot = u16;

/// The cell reached from `p` in direction `i` (north, east, south, west for
/// `i` = 0, 1, 2, 3), or `None` where that cell lies off the grid.
pub open spec fn neighbor(p: Pos, i: int) -> Option<Pos> {
    let x = p.0 as int;
    let y = p.1 as int;
    let (nx, ny) = if i == 0 {
        (x, y - 1)
    } else if i == 1 {
        (x + 1, y)
    } else if i == 2 {
        (x, y + 1)
    } else {
        (x - 1, y)
    };
    if i8::MIN <= nx <= i8::MAX && i8::MIN <= ny <= i8::MAX {
        Some((nx as i8, ny as i8))
    } else {
        None
    }
}

/// The direction opposite to `i`.
pub open spec fn opposite(i: int) -> int {
    (i + 2) % 4
}

/// A room of the catalog bound to a rotation.
#[derive(PartialEq, Eq, Hash, Debug, PartialOrd, Ord)]
pub struct PlacedRoom {
    pub info: Room,
    pub rotation: Rot,
}

impl PlacedRoom {
    /// The connectors of the placed room, north, east, south, west.
    pub open spec fn conns(self) -> Seq<Connection> {
        rotated(self.info.connections@, rotation_steps(self.rotation))
    }
}

impl Clone for PlacedRoom {
    fn clone(&self) -> (r: Self)
        ensures
            r == *self,
    {
        PlacedRoom { info: self.info.clone(), rotation: self.rotation }
    }
}

impl PlacedRoom {
    /// `room` placed with `rotation`.
    pub fn from(room: Room, rotation: Rot) -> (r: Self)
        ensures
            r.info == room,
            r.rotation == rotation,
    {
        Self { info: room, rotation }
    }

    /// The same room turned to `rotation`.
    pub fn rotate(&self, rotation: Rot) -> (r: Self)
        ensures
            r.info == self.info,
            r.rotation == rotation,
    {
        Self { info: self.info.clone(), rotation }
    }

    /// The connectors once the rotation is applied.
    pub fn get_connections(&self) -> (r: [Connection; 4])
        ensures
            r@ == self.conns(),
    {
        self.info.get_rotated_connections(self.rotation)
    }
}

/// What a castle is, mathematically: the rooms by position, and the damage
/// that is still to be resolved.
pub struct CastleView {
    pub rooms: Map<Pos, PlacedRoom>,
    pub damage: u8,
}

/// A castle: placed rooms by position, and outstanding damage.
#[derive(PartialEq, Eq, Hash, Debug, PartialOrd, Ord)]
pub struct Castle {
    pub rooms: BTreeMap<Pos, PlacedRoom>,
    pub damage: u8,
}

impl View for Castle {
    type V = CastleView;

    open spec fn view(&self) -> CastleView {
        CastleView { rooms: self.rooms@, damage: self.damage }
    }
}

impl Clone for Castle {
    fn clone(&self) -> (r: Self)
        ensures
            r@ == self@,
    {
        Castle { rooms: self.rooms.clone(), damage: self.damage }
    }
}

/// How `room`, standing at `pos`, meets the room beyond its edge `i`:
/// `None` where there is no room or both edges are walls.
pub open spec fn edge(rooms: Map<Pos, PlacedRoom>, room: PlacedRoom, pos: Pos, i: int) -> Option<bool> {
    match neighbor(pos, i) {
        Some(q) => if rooms.contains_key(q) {
            connects(room.conns()[i], rooms[q].conns()[opposite(i)])
        } else {
            None
        },
        None => None,
    }
}

/// Whether `room` may stand at `pos`: no open edge faces a wall or the
/// reverse, and at least one edge joins a neighbour.
pub open spec fn can_place(rooms: Map<Pos, PlacedRoom>, room: PlacedRoom, pos: Pos) -> bool {
    &&& forall|i: int| 0 <= i < 4 ==> edge(rooms, room, pos, i) != Some(false)
    &&& exists|i: int| 0 <= i < 4 && edge(rooms, room, pos, i) == Some(true)
}

/// The number of edges among the first `n` of the room at `pos` that join a
/// neighbour.
pub open spec fn joined_upto(rooms: Map<Pos, PlacedRoom>, pos: Pos, n: int) -> nat
    decreases n,
{
    if n <= 0 {
        0
    } else {
        joined_upto(rooms, pos, n - 1) + if edge(rooms, rooms[pos], pos, n - 1) == Some(true) {
            1nat
        } else {
            0nat
        }
    }
}

/// The number of edges of the room at `pos` that join a neighbour.
pub open spec fn num_connected(rooms: Map<Pos, PlacedRoom>, pos: Pos) -> nat {
    joined_upto(rooms, pos, 4)
}

/// Whether edge `i` of the room at `pos` keeps it powered: an edge that
/// transmits power must meet a neighbour, and the link there must transmit
/// power too.
pub open spec fn edge_powered(rooms: Map<Pos, PlacedRoom>, pos: Pos, i: int) -> bool {
    let c = rooms[pos].conns()[i];
    powered(c) ==> match neighbor(pos, i) {
        Some(q) => rooms.contains_key(q) && match linked(c, rooms[q].conns()[opposite(i)]) {
            Ok(l) => powered(l),
            Err(_) => false,
        },
        None => false,
    }
}

/// Whether the room at `pos` is powered.
pub open spec fn is_powered(rooms: Map<Pos, PlacedRoom>, pos: Pos) -> bool {
    forall|i: int| 0 <= i < 4 ==> #[trigger] edge_powered(rooms, pos, i)
}

/// No open edge of any room faces a wall of a neighbour.
pub open spec fn consistent(rooms: Map<Pos, PlacedRoom>) -> bool {
    forall|p: Pos, i: int|
        #![trigger edge(rooms, rooms[p], p, i)]
        rooms.contains_key(p) && 0 <= i < 4 ==> edge(rooms, rooms[p], p, i) != Some(false)
}

/// The four neighbours of `pos`, north, east, south, west.
pub(crate) fn connecting(pos: Pos) -> (r: [Option<Pos>; 4])
    ensures
        forall|i: int| 0 <= i < 4 ==> r@[i] == neighbor(pos, i),
{
    let (x, y) = pos;
    let north = if y > i8::MIN { Some((x, y - 1)) } else { None };
    let east = if x < i8::MAX { Some((x + 1, y)) } else { None };
    let south = if y < i8::MAX { Some((x, y + 1)) } else { None };
    let west = if x > i8::MIN { Some((x - 1, y)) } else { None };
    [north, east, south, west]
}

impl Castle {
    /// A castle of one room, `starting_room` at (0, 0), with no damage.
    pub fn new(starting_room: Room) -> (r: Castle)
        ensures
            r@.rooms == map![(0i8, 0i8) => PlacedRoom { info: starting_room, rotation: 0 }],
            r@.damage == 0,
            consistent(r@.rooms),
    {
        let mut rooms = BTreeMap::new();
        rooms.insert((0, 0), PlacedRoom::from(starting_room, 0));
        proof {
            assert(rooms@ =~= map![(0i8, 0i8) => PlacedRoom { info: starting_room, rotation: 0 }]);
        }
        Castle { rooms, damage: 0 }
    }

    /// The occupied positions, in increasing order.
    pub(crate) fn positions(&self) -> (r: Vec<Pos>)
        ensures
            r@.no_duplicates(),
            r@.to_set() == self.rooms@.dom(),
            r@.len() == self.rooms@.len(),
            sorted_by(r@, pos_order()),
    {
        let mut v: Vec<Pos> = Vec::new();
        let ghost ks = spec_keys_iter(&self.rooms).remaining();
        for p in it: self.rooms.keys()
            invariant
                it.seq() == ks,
                v@ == it.seq().take(it.index()).unref(),
        {
            v.push(*p);
            proof {
                assert(v@ =~= it.seq().take(it.index() + 1).unref());
            }
        }
        proof {
            assert(v@ =~= ks.unref());
            assert(vstd::std_specs::btree::increasing_seq(ks));
            assert(vstd::laws_cmp::obeys_cmp::<Pos>());
            assert(vstd::laws_cmp::obeys_cmp::<&Pos>());
            vstd::std_specs::btree::axiom_increasing_seq_meaning::<&Pos>(ks);
            assert forall|i: int, j: int| 0 <= i < j < v@.len() implies #[trigger] pos_order()(v@[i], v@[j]) by {
                assert(<&Pos as OrdSpec>::cmp_spec(&ks[i], &ks[j]) is Less);
            }
        }
        v
    }
}

impl Castle {
    /// How `room` at `pos` meets its neighbour across edge `i`.
    fn edge_of(
        &self,
        room: &PlacedRoom,
        conns: &[Connection; 4],
        nbrs: &[Option<Pos>; 4],
        pos: Pos,
        i: usize,
    ) -> (r: Option<bool>)
        requires
            i < 4,
            conns@ == room.conns(),
            forall|k: int| 0 <= k < 4 ==> nbrs@[k] == neighbor(pos, k),
        ensures
            r == edge(self.rooms@, *room, pos, i as int),
    {
        if let Some(q) = nbrs[i] {
            if let Some(other) = self.rooms.get(&q) {
                let oc = other.get_connections();
                return conns[i].connect(&oc[(i + 2) % 4]);
            }
        }
        None
    }

    /// Whether `room` may stand at `pos`; whether `pos` is free is not looked at.
    pub(crate) fn can_place_room(&self, room: &PlacedRoom, pos: Pos) -> (r: bool)
        ensures
            r == can_place(self.rooms@, *room, pos),
    {
        let conns = room.get_connections();
        let nbrs = connecting(pos);
        let mut count: u8 = 0;
        for i in 0..4usize
            invariant
                conns@ == room.conns(),
                forall|k: int| 0 <= k < 4 ==> nbrs@[k] == neighbor(pos, k),
                count <= i,
                forall|j: int| 0 <= j < i ==> edge(self.rooms@, *room, pos, j) != Some(false),
                count > 0 <==> exists|j: int| 0 <= j < i && edge(self.rooms@, *room, pos, j) == Some(true),
        {
            let e = self.edge_of(room, &conns, &nbrs, pos, i);
            match e {
                Some(true) => {
                    count = count + 1;
                },
                Some(false) => {
                    return false;
                },
                None => {},
            }
        }
        count > 0
    }

    /// How many edges of the room at `pos` join a neighbour.
    pub(crate) fn room_num_connected(&self, pos: Pos) -> (r: Result<u8, CastleError>)
        ensures
            match r {
                Ok(n) => self.rooms@.contains_key(pos) && n == num_connected(self.rooms@, pos),
                Err(e) => !self.rooms@.contains_key(pos) && e == CastleError::EmptyPosition,
            },
    {
        if let Some(room) = self.rooms.get(&pos) {
            let conns = room.get_connections();
            let nbrs = connecting(pos);
            let mut count: u8 = 0;
            for i in 0..4usize
                invariant
                    self.rooms@.contains_key(pos),
                    *room == self.rooms@[pos],
                    conns@ == self.rooms@[pos].conns(),
                    forall|k: int| 0 <= k < 4 ==> nbrs@[k] == neighbor(pos, k),
                    count == joined_upto(self.rooms@, pos, i as int),
                    count <= i,
            {
                if let Some(true) = self.edge_of(room, &conns, &nbrs, pos, i) {
                    count = count + 1;
                }
            }
            Ok(count)
        } else {
            Err(CastleError::EmptyPosition)
        }
    }

    /// Whether the room at `pos` is joined to exactly one neighbour.
    pub(crate) fn room_is_outer(&self, pos: Pos) -> (r: Result<bool, CastleError>)
        ensures
            match r {
                Ok(b) => self.rooms@.contains_key(pos) && b == (num_connected(self.rooms@, pos) == 1),
                Err(e) => !self.rooms@.contains_key(pos) && e == CastleError::EmptyPosition,
            },
    {
        Ok(self.room_num_connected(pos)? == 1)
    }

    /// Whether the room at `pos` is powered.
    pub(crate) fn room_is_powered(&self, pos: Pos) -> (r: Result<bool, CastleError>)
        ensures
            match r {
                Ok(b) => self.rooms@.contains_key(pos) && b == is_powered(self.rooms@, pos),
                Err(e) => !self.rooms@.contains_key(pos) && e == CastleError::EmptyPosition,
            },
    {
        if let Some(room) = self.rooms.get(&pos) {
            let conns = room.get_connections();
            let nbrs = connecting(pos);
            for i in 0..4usize
                invariant
                    self.rooms@.contains_key(pos),
                    conns@ == self.rooms@[pos].conns(),
                    forall|k: int| 0 <= k < 4 ==> nbrs@[k] == neighbor(pos, k),
                    forall|j: int| 0 <= j < i ==> edge_powered(self.rooms@, pos, j),
            {
                if conns[i].power() {
                    let mut ok = false;
                    if let Some(q) = nbrs[i] {
                        if let Some(other) = self.rooms.get(&q) {
                            let oc = other.get_connections();
                            if let Ok(l) = conns[i].link(&oc[(i + 2) % 4]) {
                                ok = l.power();
                            }
                        }
                    }
                    if !ok {
                        proof {
                            assert(!edge_powered(self.rooms@, pos, i as int));
                        }
                        return Ok(false);
                    }
                }
            }
            Ok(true)
        } else {
            Err(CastleError::EmptyPosition)
        }
    }
}

} // verus!
