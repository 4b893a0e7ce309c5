//! Core enumerations shared by orders, fills and positions.

use vstd::prelude::*;

verus! {

/// Direction of an open position.
#[derive(Debug, Clone, Copy, PartialEq, Eq, Structural, Hash)]
pub enum Side {
    Long,
    Short,
}

impl Side {
    /// The opposite direction.
    pub fn flip(self) -> (r: Side)
        ensures
            r == flip_of(self),
    {
        match self {
            Side::Long => Side::Short,
            Side::Short => Side::Long,
        }
    }

    /// `+1` for a long position, `-1` for a short one.
    pub fn sign(self) -> (r: i8)
        ensures
            r == sign_of(self),
    {
        match self {
            Side::Long => 1,
            Side::Short => -1,
        }
    }
}

/// Direction of an order or a fill.
#[derive(Debug, Clone, Copy, PartialEq, Eq, Structural, Hash)]
pub enum OrderSide {
    Buy,
    Sell,
}

impl OrderSide {
    /// `+1` for a buy, `-1` for a sell: the sign of the quantity change.
    pub fn sign(self) -> (r: i8)
        ensures
            r == match self {
                OrderSide::Buy => 1i8,
                OrderSide::Sell => -1i8,
            },
    {
        match self {
            OrderSide::Buy => 1,
            OrderSide::Sell => -1,
        }
    }
}

#[derive(Debug, Clone, Copy, PartialEq, Eq, Structural)]
pub enum OrderType {
    Market,
    Limit,
}

/// Flipping a side twice gives it back, and a flip reverses the sign.
pub proof fn lemma_flip_involution(s: Side)
    ensures
        flip_of(flip_of(s)) == s,
        sign_of(flip_of(s)) == -sign_of(s),
{
}

pub open spec fn flip_of(s: Side) -> Side {
    match s {
        Side::Long => Side::Short,
        Side::Short => Side::Long,
    }
}

pub open spec fn sign_of(s: Side) -> int {
    match s {
        Side::Long => 1,
        Side::Short => -1,
    }
}

} // verus!
