pub mod connection;
pub mod simple_room;

use connection::Connection;
use vstd::prelude::*;

verus! {

/// How many quarter turns clockwise a rotation in degrees stands for: the
/// angle is taken modulo 360 and rounded down to a multiple of 90.
pub open spec fn rotation_steps(rotation: u16) -> int {
    ((rotation % 360) / 90) as int
}

/// The four connectors `c` turned clockwise by `steps` quarter turns, from 0
/// to 3: the connector at index `k` moves to index `(k + steps) % 4`.
pub open spec fn rotated(c: Seq<Connection>, steps: int) -> Seq<Connection> {
    Seq::new(4, |j: int| if j >= steps { c[j - steps] } else { c[j + 4 - steps] })
}

/// A catalog entry: a room as printed, before it is placed.
#[derive(PartialEq, Eq, Hash, Debug, PartialOrd, Ord)]
pub struct Room {
    pub name: String,
    pub throne: bool,
    pub treasure: u8,
    /// North, east, south and west, in that order.
    pub connections: [Connection; 4],
}

impl Clone for Room {
    fn clone(&self) -> (r: Self)
        ensures
            r == *self,
    {
        Room {
            name: self.name.clone(),
            throne: self.throne,
            treasure: self.treasure,
            connections: self.connections,
        }
    }
}

impl Room {
    /// The connectors of this room once turned by `rotation` degrees.
    pub fn get_rotated_connections(&self, rotation: u16) -> (r: [Connection; 4])
        ensures
            r@ == rotated(self.connections@, rotation_steps(rotation)),
            forall|k: int| 0 <= k < 4 ==> r@[(k + rotation_steps(rotation)) % 4] == self.connections@[k],
    {
        let c = self.connections;
        let k: usize = ((rotation % 360) / 90) as usize;
        let r = [c[(4 - k) % 4], c[(5 - k) % 4], c[(6 - k) % 4], c[(7 - k) % 4]];
        assert(r@ =~= rotated(self.connections@, rotation_steps(rotation)));
        r
    }
}

} // verus!
