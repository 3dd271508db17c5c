use super::connection::Connection;
use super::{rotated, rotation_steps};
use crate::castle::PlacedRoom;
use vstd::prelude::*;

verus! {

/// A flat record of a placed room: what a presentation layer shows of it.
#[derive(PartialEq, Eq, Debug)]
pub struct SimpleRoom {
    throne: bool,
    name: String,
    treasure: u8,
    rotation: u16,
    connections: [Connection; 4],
}

impl Clone for SimpleRoom {
    fn clone(&self) -> (r: Self)
        ensures
            r == *self,
    {
        SimpleRoom {
            throne: self.throne,
            name: self.name.clone(),
            treasure: self.treasure,
            rotation: self.rotation,
            connections: self.connections,
        }
    }
}

impl SimpleRoom {
    pub closed spec fn spec_throne(&self) -> bool {
        self.throne
    }

    pub closed spec fn spec_name(&self) -> Seq<char> {
        self.name@
    }

    pub closed spec fn spec_treasure(&self) -> u8 {
        self.treasure
    }

    pub closed spec fn spec_rotation(&self) -> u16 {
        self.rotation
    }

    /// The connectors as printed, before rotation.
    pub closed spec fn spec_connections(&self) -> Seq<Connection> {
        self.connections@
    }

    /// The record of a placed room.
    pub fn from_room(r: &PlacedRoom) -> (s: SimpleRoom)
        ensures
            s.spec_throne() == r.info.throne,
            s.spec_name() == r.info.name@,
            s.spec_treasure() == r.info.treasure,
            s.spec_rotation() == r.rotation,
            s.spec_connections() == r.info.connections@,
    {
        SimpleRoom {
            throne: r.info.throne,
            treasure: r.info.treasure,
            name: r.info.name.clone(),
            rotation: r.rotation,
            connections: r.info.connections,
        }
    }

    pub fn is_throne(&self) -> (r: bool)
        ensures
            r == self.spec_throne(),
    {
        self.throne
    }

    pub fn get_name(&self) -> (r: &str)
        ensures
            r@ == self.spec_name(),
    {
        self.name.as_str()
    }

    pub fn get_treasure(&self) -> (r: u8)
        ensures
            r == self.spec_treasure(),
    {
        self.treasure
    }

    pub fn get_original_connections(&self) -> (r: [Connection; 4])
        ensures
            r@ == self.spec_connections(),
    {
        self.connections
    }

    pub fn get_rotation(&self) -> (r: u16)
        ensures
            r == self.spec_rotation(),
    {
        self.rotation
    }

    /// The connectors once the rotation is applied.
    pub fn get_connections(&self) -> (r: [Connection; 4])
        ensures
            r@ == rotated(self.spec_connections(), rotation_steps(self.spec_rotation())),
    {
        let c = self.connections;
        let k: usize = ((self.rotation % 360) / 90) as usize;
        let r = [c[(4 - k) % 4], c[(5 - k) % 4], c[(6 - k) % 4], c[(7 - k) % 4]];
        assert(r@ =~= rotated(self.connections@, rotation_steps(self.rotation)));
        r
    }

    /// The same room turned to `rotation`.
    pub fn rotate(&self, rotation: u16) -> (r: SimpleRoom)
        ensures
            r.spec_throne() == self.spec_throne(),
            r.spec_name() == self.spec_name(),
            r.spec_treasure() == self.spec_treasure(),
            r.spec_connections() == self.spec_connections(),
            r.spec_rotation() == rotation,
    {
        let mut room = self.clone();
        room.rotation = rotation;
        room
    }
}

} // verus!
