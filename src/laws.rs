//! Properties that relate several operations of the engine.
use crate::actions::{
    apply_result, discard_one_result, discard_result, discard_seq, outer_candidates, place_result, swap_legal,
    without, Action,
};
use crate::castle::{consistent, edge, Castle, neighbor, num_connected, opposite, CastleView, PlacedRoom, Pos, Rot};
use crate::discards::lemma_discard_path_resolves;
use crate::enumerate::{lemma_neighbor_back, offered};
use crate::error::CastleError;
use crate::room::connection::Connection;
use crate::room::{rotated, rotation_steps, Room};
use vstd::prelude::*;

verus! {

broadcast use vstd::std_specs::btree::group_btree_axioms;

/// No turn leaves the connectors in place; a quarter turn moves each one on by
/// one direction.
proof fn lemma_quarter_turns(c: Seq<Connection>)
    requires
        c.len() == 4,
    ensures
        rotated(c, 0) == c,
        rotated(c, 1) == seq![c[3], c[0], c[1], c[2]],
{
    assert forall|j: int| 0 <= j < 4 implies #[trigger] rotated(c, 0)[j] == c[j] by {
        if j == 0 {} else if j == 1 {} else if j == 2 {} else {}
    }
    assert(rotated(c, 0) =~= c);
    let s = seq![c[3], c[0], c[1], c[2]];
    assert forall|j: int| 0 <= j < 4 implies #[trigger] rotated(c, 1)[j] == s[j] by {
        if j == 0 {} else if j == 1 {} else if j == 2 {} else {}
    }
    assert(rotated(c, 1) =~= s);
}

/// Turning a room by 360 degrees leaves its connectors where they were, and so
/// do four turns by 90 degrees, one after the other.
pub proof fn lemma_full_turn(c: Seq<Connection>)
    requires
        c.len() == 4,
    ensures
        rotated(c, rotation_steps(360)) == c,
        rotated(rotated(rotated(rotated(c, rotation_steps(90)), rotation_steps(90)), rotation_steps(90)), rotation_steps(90))
            == c,
{
    assert(rotation_steps(360) == 0);
    assert(rotation_steps(90) == 1);
    lemma_quarter_turns(c);
    let c1 = rotated(c, 1);
    lemma_quarter_turns(c1);
    let c2 = rotated(c1, 1);
    lemma_quarter_turns(c2);
    let c3 = rotated(c2, 1);
    lemma_quarter_turns(c3);
    assert(rotated(c3, 1) =~= c);
}

/// A rotation and the same rotation plus 360 degrees turn a room alike.
pub proof fn lemma_turn_modulo(c: Seq<Connection>, rot: Rot)
    requires
        rot + 360 <= u16::MAX,
    ensures
        rotated(c, rotation_steps((rot + 360) as u16)) == rotated(c, rotation_steps(rot)),
{
    assert(rotation_steps((rot + 360) as u16) == rotation_steps(rot));
}

/// A successful placement adds exactly one room, and placing any room at the
/// same position afterwards is refused because the position is taken.
pub proof fn lemma_place_twice(castle: Castle, room: Room, pos: Pos, rot: Rot, other: Room, other_rot: Rot)
    requires
        apply_result(castle@, Action::Place(room, pos, rot)) is Ok,
    ensures
        ({
            let c = castle@;
            let c2 = apply_result(c, Action::Place(room, pos, rot))->Ok_0;
            &&& c2.rooms.len() == c.rooms.len() + 1
            &&& c2.rooms.dom() == c.rooms.dom().insert(pos)
            &&& apply_result(c2, Action::Place(other, pos, other_rot)) == Err::<CastleView, CastleError>(
                CastleError::TakenPosition,
            )
        }),
{
    let c = castle@;
    assert(c.rooms.dom().finite());
    let c2 = place_result(c, room, pos, rot)->Ok_0;
    assert(c2.rooms.dom() =~= c.rooms.dom().insert(pos));
}

/// A room just placed as an outer room, not a throne, can be discarded
/// again when one point of damage is due, which gives back the castle as it
/// was before the placement.
pub proof fn lemma_place_then_discard(castle: Castle, room: Room, pos: Pos, rot: Rot, poses: Vec<Pos>)
    requires
        apply_result(castle@, Action::Place(room, pos, rot)) is Ok,
        !room.throne,
        num_connected(apply_result(castle@, Action::Place(room, pos, rot))->Ok_0.rooms, pos) == 1,
        poses@ == seq![pos],
    ensures
        ({
            let c = castle@;
            let c2 = apply_result(c, Action::Place(room, pos, rot))->Ok_0;
            let due = CastleView { rooms: c2.rooms, damage: 1 };
            &&& apply_result(due, Action::Discard(poses)) == Ok::<CastleView, CastleError>(
                CastleView { rooms: c.rooms, damage: 0 },
            )
            &&& c.rooms.len() == c2.rooms.len() - 1
        }),
{
    let c = castle@;
    let c2 = place_result(c, room, pos, rot)->Ok_0;
    let due = CastleView { rooms: c2.rooms, damage: 1 };
    assert(outer_candidates(due.rooms).contains(pos));
    assert(discard_one_result(due, pos) == Ok::<CastleView, CastleError>(without(due, pos)));
    assert(due.rooms.remove(pos) =~= c.rooms);
    assert(poses@.drop_first() =~= Seq::<Pos>::empty());
    assert(discard_seq(due, poses@) == discard_seq(without(due, pos), Seq::<Pos>::empty()));
    assert(c.rooms.dom().finite());
    assert(c2.rooms.dom() =~= c.rooms.dom().insert(pos));
}

/// Taking a room away keeps a castle consistent.
proof fn lemma_remove_consistent(m: Map<Pos, PlacedRoom>, x: Pos)
    requires
        consistent(m),
    ensures
        consistent(m.remove(x)),
{
    let m2 = m.remove(x);
    assert forall|p: Pos, i: int| m2.contains_key(p) && 0 <= i < 4 implies edge(m2, m2[p], p, i) != Some(false) by {
        assert(edge(m, m[p], p, i) != Some(false));
    }
}

/// Adding a room whose edges all agree with their neighbours keeps a castle
/// consistent.
proof fn lemma_insert_consistent(m: Map<Pos, PlacedRoom>, room: PlacedRoom, pos: Pos)
    requires
        consistent(m),
        !m.contains_key(pos),
        forall|i: int| 0 <= i < 4 ==> edge(m, room, pos, i) != Some(false),
    ensures
        consistent(m.insert(pos, room)),
{
    let m2 = m.insert(pos, room);
    assert forall|p: Pos, i: int| m2.contains_key(p) && 0 <= i < 4 implies edge(m2, m2[p], p, i) != Some(false) by {
        if p == pos {
            assert(edge(m, room, pos, i) != Some(false));
        } else if neighbor(p, i) == Some(pos) {
            lemma_neighbor_back(p, i);
            let j = opposite(i);
            assert(neighbor(pos, j) == Some(p));
            assert(edge(m, room, pos, j) != Some(false));
            assert(opposite(j) == i);
        } else {
            assert(edge(m, m[p], p, i) != Some(false));
        }
    }
}

/// A room that fits at `pos` among the rooms of `m2` meets the rooms of `m`
/// alike, where `m` is `m2` without its room at `other`.
proof fn lemma_edges_without(m2: Map<Pos, PlacedRoom>, room: PlacedRoom, pos: Pos, other: Pos)
    requires
        other != pos,
        forall|i: int| 0 <= i < 4 ==> edge(m2, room, pos, i) != Some(false),
    ensures
        forall|i: int| 0 <= i < 4 ==> edge(m2.remove(other), room, pos, i) != Some(false),
{
    assert forall|i: int| 0 <= i < 4 implies edge(m2.remove(other), room, pos, i) != Some(false) by {
        assert(edge(m2, room, pos, i) != Some(false));
    }
}

/// Discarding rooms one after another keeps a castle consistent.
proof fn lemma_discard_seq_consistent(c: CastleView, s: Seq<Pos>)
    requires
        consistent(c.rooms),
        discard_seq(c, s) is Ok,
    ensures
        consistent(discard_seq(c, s)->Ok_0.rooms),
    decreases s.len(),
{
    if s.len() > 0 {
        let c1 = discard_one_result(c, s[0])->Ok_0;
        assert(c1.rooms == c.rooms.remove(s[0]));
        lemma_remove_consistent(c.rooms, s[0]);
        lemma_discard_seq_consistent(c1, s.drop_first());
    }
}

/// Every action that succeeds leaves a consistent castle consistent: no open
/// edge of a room ever faces a wall of its neighbour.
pub proof fn lemma_apply_keeps_consistent(castle: Castle, a: Action)
    requires
        consistent(castle@.rooms),
        apply_result(castle@, a) is Ok,
    ensures
        consistent(apply_result(castle@, a)->Ok_0.rooms),
{
    let c = castle@;
    match a {
        Action::Place(room, pos, rot) => {
            lemma_insert_consistent(c.rooms, PlacedRoom { info: room, rotation: rot }, pos);
        },
        Action::Move(from, to, rot) => {
            lemma_remove_consistent(c.rooms, from);
            lemma_insert_consistent(c.rooms.remove(from), PlacedRoom { info: c.rooms[from].info, rotation: rot }, to);
        },
        Action::Swap(p1, p2) => {
            let r1 = c.rooms[p1];
            let r2 = c.rooms[p2];
            let rest = c.rooms.remove(p1).remove(p2);
            lemma_remove_consistent(c.rooms, p1);
            lemma_remove_consistent(c.rooms.remove(p1), p2);
            assert(swap_legal(c.rooms, p1, p2));
            lemma_edges_without(rest.insert(p2, r1), r2, p1, p2);
            assert(rest.insert(p2, r1).remove(p2) =~= rest);
            lemma_insert_consistent(rest, r2, p1);
            lemma_insert_consistent(rest.insert(p1, r2), r1, p2);
            assert(rest.insert(p1, r2).insert(p2, r1) =~= c.rooms.insert(p1, r2).insert(p2, r1));
        },
        Action::Discard(poses) => {
            lemma_discard_seq_consistent(c, poses@);
        },
        Action::Damage(diamond, cross, moon) => {
            assert(consistent(Map::<Pos, PlacedRoom>::empty()));
        },
    }
}

/// Every action that the engine offers to a player succeeds when applied.
pub proof fn lemma_offered_applies(castle: Castle, shop: Seq<Room>, a: Action)
    requires
        offered(castle@, shop, a),
    ensures
        apply_result(castle@, a) is Ok,
{
    if castle@.damage > 0 {
        lemma_discard_path_resolves(castle@, a->Discard_0@);
    }
}

} // verus!
