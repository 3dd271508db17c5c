use vstd::prelude::*;

verus! {

/// The ways in which an action on a castle can be refused.
#[derive(Clone, Copy, Debug, PartialEq, Eq, Structural, Hash)]
pub enum CastleError {
    TakenPosition,
    EmptyPosition,
    InvalidConnection,
    InvalidPosition,
    NotOuterRoom,
    NotNearlyOuterRoom,
    MustDiscard,
    NoDamage,
}

impl CastleError {
    /// A sentence that explains the error to a player.
    pub fn message(&self) -> (r: &'static str) {
        match self {
            CastleError::TakenPosition => "Room position is already taken",
            CastleError::EmptyPosition => "Room position does not contain a room",
            CastleError::InvalidConnection => "Room cannot be placed, moved or swapped because the connections to it does not match up.",
            CastleError::InvalidPosition => "Cannot select the same position as both the source and destination of a move or swap.",
            CastleError::NotOuterRoom => "Room cannot be moved or discarded because it is not an outer room.",
            CastleError::NotNearlyOuterRoom => "Room cannot be discarded because it has more than two connections.",
            CastleError::MustDiscard => "Outstanding damage must be resolved by discarding rooms first.",
            CastleError::NoDamage => "There is no damage to resolve by discarding rooms.",
        }
    }
}

/// Errors about a room on its own.
#[derive(Clone, Copy, Debug, PartialEq, Eq, Structural, Hash)]
pub enum RoomError {
    InvalidRotation,
}

impl RoomError {
    /// A sentence that explains the error to a player.
    pub fn message(&self) -> (r: &'static str) {
        match self {
            RoomError::InvalidRotation => "Invalid rotation. Rotation must be 0, 90, 180 or 270.",
        }
    }
}

} // verus!
