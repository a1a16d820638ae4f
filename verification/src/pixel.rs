//! A pixel: one value per channel.

use vstd::prelude::*;
use crate::channel::Channel;

verus! {

/// Three values of one type, one for each channel.
#[derive(Clone, Copy, Debug)]
pub struct Pixel<T> {
    pub r: T,
    pub g: T,
    pub b: T,
}

impl<T> Pixel<T> {
    /// The value stored for channel `c`.
    pub open spec fn channel(self, c: Channel) -> T {
        match c {
            Channel::R => self.r,
            Channel::G => self.g,
            Channel::B => self.b,
        }
    }

    /// The pixel with the value for channel `c` replaced by `value`.
    pub open spec fn with(self, c: Channel, value: T) -> Pixel<T> {
        match c {
            Channel::R => Pixel { r: value, g: self.g, b: self.b },
            Channel::G => Pixel { r: self.r, g: value, b: self.b },
            Channel::B => Pixel { r: self.r, g: self.g, b: value },
        }
    }
}

impl<T> vstd::std_specs::core::IndexSpecImpl<&Channel> for Pixel<T> {
    /// Every channel can be read.
    open spec fn index_req(&self, c: &&Channel) -> bool {
        true
    }
}

impl<T> core::ops::Index<&Channel> for Pixel<T> {
    type Output = T;

    /// A reference to the value stored for channel `c`.
    fn index(&self, c: &Channel) -> (value: &T)
        ensures
            *value == self.channel(*c),
    {
        match *c {
            Channel::R => &self.r,
            Channel::G => &self.g,
            Channel::B => &self.b,
        }
    }
}

impl<T> core::ops::IndexMut<&Channel> for Pixel<T> {
    /// A mutable reference to the value stored for channel `c`: what is
    /// written through it replaces that value and no other.
    fn index_mut(&mut self, c: &Channel) -> (value: &mut T)
        ensures
            *value == old(self).channel(*c),
            *final(self) == old(self).with(*c, *final(value)),
    {
        match *c {
            Channel::R => &mut self.r,
            Channel::G => &mut self.g,
            Channel::B => &mut self.b,
        }
    }
}

} // verus!
