use crate::castle::{can_place, consistent, num_connected, Castle, CastleView, PlacedRoom, Pos, Rot};
use crate::error::CastleError;
use crate::links::link_count;
use crate::room::Room;
use crate::order::{lemma_before, lemma_listing, lemma_pos_orders_total, lemma_push_sorted, listing_by, pos_order, sorted_by};
use vstd::prelude::*;

verus! {

broadcast use vstd::std_specs::btree::group_btree_axioms, vstd::laws_cmp::group_laws_cmp;

/// One move of a player, or damage dealt to the castle.
#[derive(PartialEq, Eq, Hash, Debug, PartialOrd, Ord)]
pub enum Action {
    /// Place a room of the catalog at a position, with a rotation.
    Place(Room, Pos, Rot),
    /// Move the room at the first position to the second, with a new rotation.
    Move(Pos, Pos, Rot),
    /// Exchange the rooms at two positions.
    Swap(Pos, Pos),
    /// Discard the rooms at these positions, in this order.
    Discard(Vec<Pos>),
    /// Deal diamond, cross and moon damage.
    Damage(u8, u8, u8),
}

/// A copy of a list of positions.
pub(crate) fn copy_positions(v: &Vec<Pos>) -> (r: Vec<Pos>)
    ensures
        r@ == v@,
{
    let mut r: Vec<Pos> = Vec::new();
    for i in 0..v.len()
        invariant
            r@ == v@.take(i as int),
    {
        r.push(v[i]);
        assert(r@ =~= v@.take(i + 1));
    }
    assert(r@ =~= v@);
    r
}

impl Clone for Action {
    fn clone(&self) -> (r: Self)
        ensures
            self is Discard ==> r is Discard && r->Discard_0@ == self->Discard_0@,
            !(self is Discard) ==> r == *self,
    {
        match self {
            Action::Place(room, pos, rot) => Action::Place(room.clone(), *pos, *rot),
            Action::Move(from, to, rot) => Action::Move(*from, *to, *rot),
            Action::Swap(p1, p2) => Action::Swap(*p1, *p2),
            Action::Discard(poses) => Action::Discard(copy_positions(poses)),
            Action::Damage(diamond, cross, moon) => Action::Damage(*diamond, *cross, *moon),
        }
    }
}

/// The castle that a result holds, seen as its view.
pub open spec fn view_result(r: Result<Castle, CastleError>) -> Result<CastleView, CastleError> {
    match r {
        Ok(c) => Ok(c@),
        Err(e) => Err(e),
    }
}

/// Placing `room` at `pos` with rotation `rot`.
pub open spec fn place_result(c: CastleView, room: Room, pos: Pos, rot: Rot) -> Result<CastleView, CastleError> {
    let placed = PlacedRoom { info: room, rotation: rot };
    if c.damage > 0 {
        Err(CastleError::MustDiscard)
    } else if c.rooms.contains_key(pos) {
        Err(CastleError::TakenPosition)
    } else if !can_place(c.rooms, placed, pos) {
        Err(CastleError::InvalidConnection)
    } else {
        Ok(CastleView { rooms: c.rooms.insert(pos, placed), damage: c.damage })
    }
}

/// Moving the room at `from` to `to`, turned to rotation `rot`; only an outer
/// room, one joined to exactly one neighbour, may move.
pub open spec fn move_result(c: CastleView, from: Pos, to: Pos, rot: Rot) -> Result<CastleView, CastleError> {
    let rest = c.rooms.remove(from);
    let moved = PlacedRoom { info: c.rooms[from].info, rotation: rot };
    if c.damage > 0 {
        Err(CastleError::MustDiscard)
    } else if from == to {
        Err(CastleError::InvalidPosition)
    } else if !c.rooms.contains_key(from) {
        Err(CastleError::EmptyPosition)
    } else if num_connected(c.rooms, from) != 1 {
        Err(CastleError::NotOuterRoom)
    } else if c.rooms.contains_key(to) {
        Err(CastleError::TakenPosition)
    } else if !can_place(rest, moved, to) {
        Err(CastleError::InvalidConnection)
    } else {
        Ok(CastleView { rooms: rest.insert(to, moved), damage: c.damage })
    }
}

/// Whether the rooms at `p1` and `p2` may change places: each must fit at the
/// other's position, with the other already moved.
pub open spec fn swap_legal(rooms: Map<Pos, PlacedRoom>, p1: Pos, p2: Pos) -> bool {
    let r1 = rooms[p1];
    let r2 = rooms[p2];
    let rest = rooms.remove(p1).remove(p2);
    &&& can_place(rest.insert(p1, r2), r1, p2)
    &&& can_place(rest.insert(p2, r1), r2, p1)
}

/// Exchanging the rooms at `p1` and `p2`.
pub open spec fn swap_result(c: CastleView, p1: Pos, p2: Pos) -> Result<CastleView, CastleError> {
    if c.damage > 0 {
        Err(CastleError::MustDiscard)
    } else if p1 == p2 {
        Err(CastleError::InvalidPosition)
    } else if !c.rooms.contains_key(p1) || !c.rooms.contains_key(p2) {
        Err(CastleError::EmptyPosition)
    } else if !swap_legal(c.rooms, p1, p2) {
        Err(CastleError::InvalidConnection)
    } else {
        Ok(CastleView { rooms: c.rooms.insert(p1, c.rooms[p2]).insert(p2, c.rooms[p1]), damage: c.damage })
    }
}

/// The rooms that are not the throne and are joined to exactly one neighbour.
pub open spec fn outer_candidates(rooms: Map<Pos, PlacedRoom>) -> Set<Pos> {
    rooms.dom().filter(|p: Pos| !rooms[p].info.throne && num_connected(rooms, p) == 1)
}

/// The rooms that are not the throne and are joined to at most two neighbours.
pub open spec fn nearly_candidates(rooms: Map<Pos, PlacedRoom>) -> Set<Pos> {
    rooms.dom().filter(|p: Pos| !rooms[p].info.throne && num_connected(rooms, p) <= 2)
}

pub open spec fn candidate_set(rooms: Map<Pos, PlacedRoom>, outer: bool) -> Set<Pos> {
    if outer {
        outer_candidates(rooms)
    } else {
        nearly_candidates(rooms)
    }
}

/// The castle is lost when its damage reaches its number of rooms, or when no
/// throne room is left.
pub open spec fn lost(c: CastleView) -> bool {
    c.damage >= c.rooms.len() || forall|p: Pos| #[trigger] c.rooms.contains_key(p) ==> !c.rooms[p].info.throne
}

/// The positions whose room may be discarded next.
pub open spec fn eligible_discards(c: CastleView) -> Set<Pos> {
    if lost(c) {
        Set::empty()
    } else if c.rooms.len() == 1 {
        c.rooms.dom()
    } else if !outer_candidates(c.rooms).is_empty() {
        outer_candidates(c.rooms)
    } else {
        nearly_candidates(c.rooms)
    }
}

/// The castle without the room at `pos`, with one point of damage resolved.
pub open spec fn without(c: CastleView, pos: Pos) -> CastleView {
    CastleView { rooms: c.rooms.remove(pos), damage: (c.damage - 1) as u8 }
}

/// Taking away the room at `pos`, which resolves one point of damage; there
/// must be damage left to resolve.
pub open spec fn removed(c: CastleView, pos: Pos) -> Result<CastleView, CastleError> {
    if c.damage == 0 {
        Err(CastleError::NoDamage)
    } else {
        Ok(without(c, pos))
    }
}

/// Discarding the room at `pos` to resolve one point of damage.
pub open spec fn discard_one_result(c: CastleView, pos: Pos) -> Result<CastleView, CastleError> {
    if !c.rooms.contains_key(pos) {
        Err(CastleError::EmptyPosition)
    } else if c.rooms[pos].info.throne && c.rooms.len() > 1 {
        Err(CastleError::NotOuterRoom)
    } else if !outer_candidates(c.rooms).is_empty() {
        if num_connected(c.rooms, pos) == 1 {
            removed(c, pos)
        } else {
            Err(CastleError::NotOuterRoom)
        }
    } else if !nearly_candidates(c.rooms).is_empty() {
        if num_connected(c.rooms, pos) <= 2 {
            removed(c, pos)
        } else {
            Err(CastleError::NotNearlyOuterRoom)
        }
    } else {
        Err(CastleError::MustDiscard)
    }
}

/// Discarding the rooms at `poses` one after the other; the first error stops.
pub open spec fn discard_seq(c: CastleView, poses: Seq<Pos>) -> Result<CastleView, CastleError>
    decreases poses.len(),
{
    if poses.len() == 0 {
        Ok(c)
    } else {
        match discard_one_result(c, poses[0]) {
            Ok(c1) => discard_seq(c1, poses.drop_first()),
            Err(e) => Err(e),
        }
    }
}

/// Discarding the rooms at `poses`, which must resolve all the damage.
pub open spec fn discard_result(c: CastleView, poses: Seq<Pos>) -> Result<CastleView, CastleError> {
    if c.damage == 0 {
        Err(CastleError::NoDamage)
    } else {
        match discard_seq(c, poses) {
            Ok(c1) => if c1.damage > 0 {
                Err(CastleError::MustDiscard)
            } else {
                Ok(c1)
            },
            Err(e) => Err(e),
        }
    }
}

/// The damage that `amount` deals beyond what `links` links absorb.
pub open spec fn excess(amount: u8, links: nat) -> nat {
    if amount > links {
        (amount - links) as nat
    } else {
        0
    }
}

/// Dealing damage: what the links of each type do not absorb is added (the
/// counter stops at 255), wild links then absorb some, and a castle whose
/// damage reaches its number of rooms is wiped out.
pub open spec fn damage_result(c: CastleView, diamond: u8, cross: u8, moon: u8) -> CastleView {
    let total = c.damage + excess(diamond, link_count(c.rooms, 0)) + excess(cross, link_count(c.rooms, 1))
        + excess(moon, link_count(c.rooms, 2));
    let capped: nat = if total > 255 { 255 } else { total as nat };
    let wild = link_count(c.rooms, 3);
    let reduced: nat = if capped > wild { (capped - wild) as nat } else { capped };
    if reduced >= c.rooms.len() {
        CastleView { rooms: Map::empty(), damage: (reduced - c.rooms.len()) as u8 }
    } else {
        CastleView { rooms: c.rooms, damage: reduced as u8 }
    }
}

/// What applying `a` to `c` gives.
pub open spec fn apply_result(c: CastleView, a: Action) -> Result<CastleView, CastleError> {
    match a {
        Action::Place(room, pos, rot) => place_result(c, room, pos, rot),
        Action::Move(from, to, rot) => move_result(c, from, to, rot),
        Action::Swap(p1, p2) => swap_result(c, p1, p2),
        Action::Discard(poses) => discard_result(c, poses@),
        Action::Damage(diamond, cross, moon) => Ok(damage_result(c, diamond, cross, moon)),
    }
}

impl Castle {
    /// Whether the game is lost: the damage reaches the number of rooms, or no
    /// throne room is left.
    pub fn is_lost(&self) -> (r: bool)
        ensures
            r == lost(self@),
            (forall|p: Pos| #[trigger] self.rooms@.contains_key(p) ==> !self.rooms@[p].info.throne) ==> r,
    {
        if self.damage as usize >= self.rooms.len() {
            return true;
        }
        let keys = self.positions();
        for i in 0..keys.len()
            invariant
                self.damage < self.rooms@.len(),
                keys@.to_set() == self.rooms@.dom(),
                forall|j: int| 0 <= j < i ==> !self.rooms@[#[trigger] keys@[j]].info.throne,
        {
            assert(keys@.to_set().contains(keys@[i as int]));
            let room = self.rooms.get(&keys[i]).unwrap();
            if room.info.throne {
                assert(self.rooms@.contains_key(keys@[i as int]) && self.rooms@[keys@[i as int]].info.throne);
                return false;
            }
        }
        proof {
            assert forall|p: Pos| #[trigger] self.rooms@.contains_key(p) implies !self.rooms@[p].info.throne by {
                assert(keys@.to_set().contains(p));
                let j = choose|j: int| 0 <= j < keys@.len() && keys@[j] == p;
            }
        }
        true
    }

    /// The rooms that are not the throne and are joined to exactly one
    /// neighbour (`outer`), or to at most two (not `outer`).
    fn candidates(&self, outer: bool) -> (r: Vec<Pos>)
        ensures
            r@.no_duplicates(),
            r@.to_set() == candidate_set(self.rooms@, outer),
            sorted_by(r@, pos_order()),
    {
        let keys = self.positions();
        let mut r: Vec<Pos> = Vec::new();
        let mut i: usize = 0;
        while i < keys.len()
            invariant
                i <= keys@.len(),
                keys@.no_duplicates(),
                keys@.to_set() == self.rooms@.dom(),
                sorted_by(keys@, pos_order()),
                sorted_by(r@, pos_order()),
                r@.no_duplicates(),
                forall|x: Pos| r@.contains(x) <==> (keys@.take(i as int).contains(x) && candidate_set(self.rooms@, outer).contains(x)),
            decreases keys@.len() - i,
        {
            let p = keys[i];
            assert(keys@.to_set().contains(p));
            let room = self.rooms.get(&p).unwrap();
            let n = match self.room_num_connected(p) {
                Ok(n) => n,
                Err(_) => 0,
            };
            let ghost before = r@;
            let take = !room.info.throne && ((outer && n == 1) || (!outer && n <= 2));
            proof {
                assert(take <==> candidate_set(self.rooms@, outer).contains(p));
                assert(!keys@.take(i as int).contains(p)) by {
                    if keys@.take(i as int).contains(p) {
                        let j = choose|j: int| 0 <= j < i && keys@.take(i as int)[j] == p;
                        assert(keys@[j] == keys@[i as int]);
                    }
                }
                assert(!before.contains(p));
                assert(keys@.take(i + 1) =~= keys@.take(i as int).push(p));
                lemma_before(keys@, before, i as int, pos_order());
                lemma_push_sorted(before, p, pos_order());
            }
            if take {
                r.push(p);
                proof {
                    assert(r@ == before.push(p));
                }
            }
            proof {
                assert forall|x: Pos| r@.contains(x) <==> (keys@.take(i + 1).contains(x) && candidate_set(self.rooms@, outer).contains(x)) by {
                    assert(before.contains(x) <==> (keys@.take(i as int).contains(x) && candidate_set(self.rooms@, outer).contains(x)));
                    if take {
                        assert(r@.contains(x) <==> before.contains(x) || x == p) by {
                            if r@.contains(x) && x != p {
                                let j = choose|j: int| 0 <= j < r@.len() && r@[j] == x;
                                assert(before[j] == x);
                            }
                            if before.contains(x) {
                                let j = choose|j: int| 0 <= j < before.len() && before[j] == x;
                                assert(r@[j] == x);
                            }
                            if x == p {
                                assert(r@[r@.len() - 1] == p);
                            }
                        }
                    }
                    assert(keys@.take(i + 1).contains(x) <==> (keys@.take(i as int).contains(x) || x == p)) by {
                        if keys@.take(i + 1).contains(x) && x != p {
                            let j = choose|j: int| 0 <= j < i + 1 && #[trigger] keys@.take(i + 1)[j] == x;
                            assert(keys@.take(i as int)[j] == x);
                        }
                        if keys@.take(i as int).contains(x) {
                            let j = choose|j: int| 0 <= j < i && #[trigger] keys@.take(i as int)[j] == x;
                            assert(keys@.take(i + 1)[j] == x);
                        }
                        if x == p {
                            assert(keys@.take(i + 1)[i as int] == p);
                        }
                    }
                }
            }
            i = i + 1;
        }
        proof {
            assert(keys@.take(keys@.len() as int) =~= keys@);
            assert(r@.to_set() =~= candidate_set(self.rooms@, outer));
        }
        r
    }

    /// The positions whose room may be discarded next.
    pub fn possible_discard(&self) -> (r: Vec<Pos>)
        ensures
            r@.no_duplicates(),
            r@.to_set() == eligible_discards(self@),
            r@ == listing_by(eligible_discards(self@), pos_order()),
            sorted_by(r@, pos_order()),
    {
        proof {
            lemma_pos_orders_total();
        }
        if self.is_lost() {
            let r: Vec<Pos> = Vec::new();
            assert(r@.to_set() =~= Set::empty());
            proof {
                lemma_listing(r@, pos_order());
            }
            return r;
        }
        if self.rooms.len() == 1 {
            let r = self.positions();
            proof {
                lemma_listing(r@, pos_order());
            }
            return r;
        }
        let outer = self.candidates(true);
        if outer.len() > 0 {
            assert(outer@.to_set().contains(outer@[0]));
            proof {
                lemma_listing(outer@, pos_order());
            }
            outer
        } else {
            assert(outer@.to_set() =~= Set::empty());
            let r = self.candidates(false);
            proof {
                lemma_listing(r@, pos_order());
            }
            r
        }
    }

    pub(crate) fn action_place(&self, room: Room, pos: Pos, rot: Rot) -> (r: Result<Castle, CastleError>)
        ensures
            view_result(r) == place_result(self@, room, pos, rot),
    {
        if self.damage > 0 {
            return Err(CastleError::MustDiscard);
        }
        if self.rooms.contains_key(&pos) {
            return Err(CastleError::TakenPosition);
        }
        let placed = PlacedRoom::from(room, rot);
        if !self.can_place_room(&placed, pos) {
            return Err(CastleError::InvalidConnection);
        }
        let mut castle = self.clone();
        castle.rooms.insert(pos, placed);
        Ok(castle)
    }

    pub(crate) fn action_move(&self, from: Pos, to: Pos, rot: Rot) -> (r: Result<Castle, CastleError>)
        ensures
            view_result(r) == move_result(self@, from, to, rot),
    {
        if self.damage > 0 {
            return Err(CastleError::MustDiscard);
        }
        if from.0 == to.0 && from.1 == to.1 {
            return Err(CastleError::InvalidPosition);
        }
        if !self.rooms.contains_key(&from) {
            return Err(CastleError::EmptyPosition);
        }
        if let Ok(false) = self.room_is_outer(from) {
            return Err(CastleError::NotOuterRoom);
        }
        if self.rooms.contains_key(&to) {
            return Err(CastleError::TakenPosition);
        }
        let mut castle = self.clone();
        let room = castle.rooms.remove(&from).unwrap();
        let moved = room.rotate(rot);
        if !castle.can_place_room(&moved, to) {
            return Err(CastleError::InvalidConnection);
        }
        castle.rooms.insert(to, moved);
        Ok(castle)
    }

    pub(crate) fn action_swap(&self, pos_1: Pos, pos_2: Pos) -> (r: Result<Castle, CastleError>)
        ensures
            view_result(r) == swap_result(self@, pos_1, pos_2),
    {
        if self.damage > 0 {
            return Err(CastleError::MustDiscard);
        }
        if pos_1.0 == pos_2.0 && pos_1.1 == pos_2.1 {
            return Err(CastleError::InvalidPosition);
        }
        if !self.rooms.contains_key(&pos_1) || !self.rooms.contains_key(&pos_2) {
            return Err(CastleError::EmptyPosition);
        }
        match self.swapped(pos_1, pos_2) {
            Some(castle) => Ok(castle),
            None => Err(CastleError::InvalidConnection),
        }
    }

    /// The castle with the rooms at `pos_1` and `pos_2` exchanged, where each
    /// fits at the other's position.
    pub(crate) fn swapped(&self, pos_1: Pos, pos_2: Pos) -> (r: Option<Castle>)
        requires
            pos_1 != pos_2,
            self.rooms@.contains_key(pos_1),
            self.rooms@.contains_key(pos_2),
        ensures
            match r {
                Some(c) => swap_legal(self.rooms@, pos_1, pos_2) && c@ == CastleView {
                    rooms: self.rooms@.insert(pos_1, self.rooms@[pos_2]).insert(pos_2, self.rooms@[pos_1]),
                    damage: self.damage,
                },
                None => !swap_legal(self.rooms@, pos_1, pos_2),
            },
    {
        let ghost rooms = self.rooms@;
        let ghost rest = rooms.remove(pos_1).remove(pos_2);
        let mut castle = self.clone();
        let room1 = castle.rooms.remove(&pos_1).unwrap();
        let room2 = castle.rooms.remove(&pos_2).unwrap();
        // The first leg: room2 already stands at pos_1, room1 goes to pos_2.
        castle.rooms.insert(pos_1, room2);
        if !castle.can_place_room(&room1, pos_2) {
            return None;
        }
        let room2 = castle.rooms.remove(&pos_1).unwrap();
        proof {
            assert(castle.rooms@ =~= rest);
        }
        // The second leg: room1 already stands at pos_2, room2 goes to pos_1.
        castle.rooms.insert(pos_2, room1);
        if !castle.can_place_room(&room2, pos_1) {
            return None;
        }
        castle.rooms.insert(pos_1, room2);
        proof {
            assert(castle.rooms@ =~= rooms.insert(pos_1, rooms[pos_2]).insert(pos_2, rooms[pos_1]));
        }
        Some(castle)
    }

    /// The castle without its room at `pos`, with one point of damage resolved.
    fn removed(&self, pos: Pos) -> (r: Result<Castle, CastleError>)
        ensures
            view_result(r) == removed(self@, pos),
    {
        if self.damage == 0 {
            return Err(CastleError::NoDamage);
        }
        let mut castle = self.clone();
        castle.rooms.remove(&pos);
        castle.damage = castle.damage - 1;
        Ok(castle)
    }

    pub(crate) fn action_discard_one(&self, pos: Pos) -> (r: Result<Castle, CastleError>)
        ensures
            view_result(r) == discard_one_result(self@, pos),
    {
        let room = match self.rooms.get(&pos) {
            Some(room) => room,
            None => {
                return Err(CastleError::EmptyPosition);
            },
        };
        if room.info.throne && self.rooms.len() > 1 {
            return Err(CastleError::NotOuterRoom);
        }
        let n = match self.room_num_connected(pos) {
            Ok(n) => n,
            Err(_) => 0,
        };
        let outer = self.candidates(true);
        if outer.len() > 0 {
            assert(outer@.to_set().contains(outer@[0]));
            if n == 1 {
                return self.removed(pos);
            } else {
                return Err(CastleError::NotOuterRoom);
            }
        }
        assert(outer@.to_set() =~= Set::empty());
        let nearly = self.candidates(false);
        if nearly.len() > 0 {
            assert(nearly@.to_set().contains(nearly@[0]));
            if n <= 2 {
                return self.removed(pos);
            } else {
                return Err(CastleError::NotNearlyOuterRoom);
            }
        }
        assert(nearly@.to_set() =~= Set::empty());
        Err(CastleError::MustDiscard)
    }

    pub(crate) fn action_discard(&self, poses: Vec<Pos>) -> (r: Result<Castle, CastleError>)
        ensures
            view_result(r) == discard_result(self@, poses@),
    {
        if self.damage == 0 {
            return Err(CastleError::NoDamage);
        }
        let mut castle = self.clone();
        assert(poses@.skip(0) =~= poses@);
        for i in 0..poses.len()
            invariant
                self.damage > 0,
                discard_seq(self@, poses@) == discard_seq(castle@, poses@.skip(i as int)),
        {
            assert(poses@.skip(i as int).drop_first() =~= poses@.skip(i + 1));
            assert(poses@.skip(i as int)[0] == poses@[i as int]);
            match castle.action_discard_one(poses[i]) {
                Ok(c) => {
                    castle = c;
                },
                Err(e) => {
                    return Err(e);
                },
            }
        }
        assert(poses@.skip(poses@.len() as int) =~= Seq::<Pos>::empty());
        assert(poses@.skip(0) =~= poses@);
        if castle.damage > 0 {
            Err(CastleError::MustDiscard)
        } else {
            Ok(castle)
        }
    }
}

impl Castle {
    /// Deals diamond, cross and moon damage to the castle.
    pub fn action_damage(&self, diamond_damage: u8, cross_damage: u8, moon_damage: u8) -> (r: Castle)
        requires
            consistent(self.rooms@),
        ensures
            r@ == damage_result(self@, diamond_damage, cross_damage, moon_damage),
    {
        let (diamond_link, cross_link, moon_link, wild_link) = self.get_links();
        let mut total: u32 = self.damage as u32;
        if diamond_damage as u32 > diamond_link {
            total = total + (diamond_damage as u32 - diamond_link);
        }
        if cross_damage as u32 > cross_link {
            total = total + (cross_damage as u32 - cross_link);
        }
        if moon_damage as u32 > moon_link {
            total = total + (moon_damage as u32 - moon_link);
        }
        let mut damage: u8 = if total > 255 { 255 } else { total as u8 };
        if damage as u32 > wild_link {
            damage = damage - wild_link as u8;
        }
        let mut castle = self.clone();
        castle.damage = damage;
        if castle.damage as usize >= castle.rooms.len() {
            castle = castle.clear_rooms();
        }
        proof {
            assert(castle@.rooms =~= damage_result(self@, diamond_damage, cross_damage, moon_damage).rooms);
        }
        castle
    }

    /// Wipes out every room; the damage drops by the number of rooms there were.
    pub fn clear_rooms(&self) -> (r: Castle)
        requires
            self.damage >= self.rooms@.len(),
        ensures
            r@.rooms == Map::<Pos, PlacedRoom>::empty(),
            r@.damage == self.damage - self.rooms@.len(),
    {
        let mut castle = self.clone();
        castle.damage = castle.damage - castle.rooms.len() as u8;
        castle.rooms.clear();
        castle
    }

    /// Applies one action, giving the new castle or the reason it is refused.
    /// Damage is dealt only to a consistent castle, since it counts links.
    pub fn apply(&self, action: Action) -> (r: Result<Castle, CastleError>)
        requires
            action is Damage ==> consistent(self.rooms@),
        ensures
            view_result(r) == apply_result(self@, action),
    {
        match action {
            Action::Place(room, pos, rot) => self.action_place(room, pos, rot),
            Action::Move(from, to, rot) => self.action_move(from, to, rot),
            Action::Swap(pos_1, pos_2) => self.action_swap(pos_1, pos_2),
            Action::Discard(poses) => self.action_discard(poses),
            Action::Damage(diamond, cross, moon) => Ok(self.action_damage(diamond, cross, moon)),
        }
    }
}

} // verus!
