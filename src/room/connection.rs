use crate::error::CastleError;
use vstd::prelude::*;

verus! {

/// The marker on one edge of a room.
///
/// `Empty` means the edge is a wall. `Wild` joins any typed connector. The
/// three typed connectors carry whether this edge transmits power.
#[derive(Clone, Copy, Debug, PartialEq, Eq, Structural, Hash, PartialOrd, Ord)]
pub enum Connection {
    Empty,
    Wild,
    Diamond(bool),
    Cross(bool),
    Moon(bool),
}

/// Whether two facing edges join: `None` when both are walls, `Some(true)`
/// when both are open, `Some(false)` when an open edge faces a wall.
pub open spec fn connects(a: Connection, b: Connection) -> Option<bool> {
    if a is Empty && b is Empty {
        Option::None
    } else {
        Option::Some(!(a is Empty) && !(b is Empty))
    }
}

/// Whether `a` and `b` are the same typed connector, whatever their power.
pub open spec fn same_type(a: Connection, b: Connection) -> bool {
    ||| (a is Diamond && b is Diamond)
    ||| (a is Cross && b is Cross)
    ||| (a is Moon && b is Moon)
}

/// Whether `c` is one of the three typed connectors.
pub open spec fn is_typed(c: Connection) -> bool {
    c is Diamond || c is Cross || c is Moon
}

/// The typed connector of the same type as `c`, with power `p`.
pub open spec fn with_power(c: Connection, p: bool) -> Connection {
    match c {
        Connection::Diamond(_) => Connection::Diamond(p),
        Connection::Cross(_) => Connection::Cross(p),
        Connection::Moon(_) => Connection::Moon(p),
        _ => c,
    }
}

/// The state of edge `a` once joined to the facing edge `b`, seen from `a`'s
/// side; an error when exactly one of the two is a wall.
///
/// Two typed connectors of different types form no link.
pub open spec fn linked(a: Connection, b: Connection) -> Result<Connection, CastleError> {
    if (a is Empty) != (b is Empty) {
        Err(CastleError::InvalidConnection)
    } else if a is Empty {
        Ok(Connection::Empty)
    } else if a is Wild && b is Wild {
        Ok(Connection::Wild)
    } else if a is Wild {
        Ok(with_power(b, true))
    } else if b is Wild || same_type(a, b) {
        Ok(a)
    } else {
        Ok(Connection::Empty)
    }
}

/// Whether `c` is a typed connector that transmits power.
pub open spec fn powered(c: Connection) -> bool {
    match c {
        Connection::Diamond(p) => p,
        Connection::Cross(p) => p,
        Connection::Moon(p) => p,
        _ => false,
    }
}

impl Connection {
    /// Whether this edge joins the facing edge `other`.
    pub fn connect(&self, other: &Connection) -> (r: Option<bool>)
        ensures
            r == connects(*self, *other),
            r is None <==> (*self is Empty && *other is Empty),
            r == Some(false) <==> ((*self is Empty) != (*other is Empty)),
            r == Some(true) <==> (!(*self is Empty) && !(*other is Empty)),
    {
        let a = matches!(self, Connection::Empty);
        let b = matches!(other, Connection::Empty);
        if a && b {
            return Option::None;
        }
        Option::Some(!a && !b)
    }

    /// Tells the state of this connection once joined to `other`.
    pub fn link(&self, other: &Connection) -> (r: Result<Connection, CastleError>)
        ensures
            r == linked(*self, *other),
            (*self is Wild && *other is Wild) ==> r == Ok::<Connection, CastleError>(Connection::Wild),
            (*self is Wild && is_typed(*other)) ==> r == Ok::<Connection, CastleError>(with_power(*other, true)),
            (is_typed(*self) && *other is Wild) ==> r == Ok::<Connection, CastleError>(*self),
            same_type(*self, *other) ==> r == Ok::<Connection, CastleError>(*self),
            (is_typed(*self) && is_typed(*other) && !same_type(*self, *other)) ==> r == Ok::<Connection, CastleError>(Connection::Empty),
            (*self is Empty && *other is Empty) ==> r == Ok::<Connection, CastleError>(Connection::Empty),
            ((*self is Empty) != (*other is Empty)) ==> r == Err::<Connection, CastleError>(CastleError::InvalidConnection),
    {
        match (self, other) {
            (Connection::Wild, Connection::Wild) => Ok(Connection::Wild),
            (Connection::Wild, Connection::Diamond(_)) => Ok(Connection::Diamond(true)),
            (Connection::Wild, Connection::Cross(_)) => Ok(Connection::Cross(true)),
            (Connection::Wild, Connection::Moon(_)) => Ok(Connection::Moon(true)),
            (Connection::Diamond(power), Connection::Wild) => Ok(Connection::Diamond(*power)),
            (Connection::Cross(power), Connection::Wild) => Ok(Connection::Cross(*power)),
            (Connection::Moon(power), Connection::Wild) => Ok(Connection::Moon(*power)),
            (Connection::Cross(power), Connection::Cross(_)) => Ok(Connection::Cross(*power)),
            (Connection::Diamond(power), Connection::Diamond(_)) => Ok(Connection::Diamond(*power)),
            (Connection::Moon(power), Connection::Moon(_)) => Ok(Connection::Moon(*power)),
            (Connection::Empty, Connection::Empty) => Ok(Connection::Empty),
            (Connection::Empty, _) => Err(CastleError::InvalidConnection),
            (_, Connection::Empty) => Err(CastleError::InvalidConnection),
            (_, _) => Ok(Connection::Empty),
        }
    }

    /// Whether this is a typed connector that transmits power.
    pub fn power(&self) -> (r: bool)
        ensures
            r == powered(*self),
            r <==> (is_typed(*self) && with_power(*self, true) == *self),
    {
        match self {
            Connection::Diamond(power) => *power,
            Connection::Cross(power) => *power,
            Connection::Moon(power) => *power,
            _ => false,
        }
    }
}

} // verus!
