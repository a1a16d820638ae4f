//! The three colour channels of a pixel.

use vstd::prelude::*;

verus! {

/// One of the three channels of a pixel, in canonical order.
#[derive(Clone, Copy, Debug, PartialEq, Eq, Structural)]
pub enum Channel {
    R,
    G,
    B,
}

impl Channel {
    /// The position of the channel in the canonical order.
    pub open spec fn index(self) -> nat {
        match self {
            Channel::R => 0,
            Channel::G => 1,
            Channel::B => 2,
        }
    }

    /// The position of the channel in the canonical order.
    pub fn to_number(&self) -> (n: usize)
        ensures
            n == self.index(),
    {
        match *self {
            Channel::R => 0,
            Channel::G => 1,
            Channel::B => 2,
        }
    }

    /// All channels, in canonical order.
    pub fn iterator() -> (channels: [Channel; 3])
        ensures
            channels@ == seq![Channel::R, Channel::G, Channel::B],
    {
        [Channel::R, Channel::G, Channel::B]
    }
}

} // verus!
