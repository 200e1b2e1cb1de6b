//! Abstract endpoints for inter-stage value transport: a `Source` yields
//! values one at a time until permanently exhausted, a `Sink` accepts them
//! one at a time.

use std::collections::VecDeque;

use vstd::prelude::*;

verus! {

/// Which side a bracket token faces.
#[derive(Clone, Copy, Debug, PartialEq, Eq, Structural)]
pub enum Direction {
    Left,
    Right,
}

/// A source of values of type `T`: `take` yields the values in order and
/// returns `None` once the source is permanently exhausted.
pub trait Source<T> {
    /// The values the source will still yield, in order.
    spec fn contents(&self) -> Seq<T>;

    fn take(&mut self) -> (r: Option<T>)
        ensures
            old(self).contents().len() > 0 ==> {
                &&& r matches Some(t) && t == old(self).contents()[0]
                &&& final(self).contents() == old(self).contents().drop_first()
            },
            old(self).contents().len() == 0 ==> {
                &&& r is None
                &&& final(self).contents() == old(self).contents()
            },
    ;
}

/// A sink for values of type `T`: `put` accepts one value at a time.
pub trait Sink<T> {
    /// The values the sink has accepted so far, in order.
    spec fn contents(&self) -> Seq<T>;

    fn put(&mut self, thing: T)
        ensures
            final(self).contents() == old(self).contents().push(thing),
    ;
}

impl<T> Source<T> for Vec<T> {
    open spec fn contents(&self) -> Seq<T> {
        self@
    }

    fn take(&mut self) -> (r: Option<T>) {
        if self.len() == 0 {
            None
        } else {
            Some(self.remove(0))
        }
    }
}

impl<T> Sink<T> for Vec<T> {
    open spec fn contents(&self) -> Seq<T> {
        self@
    }

    fn put(&mut self, thing: T) {
        self.push(thing);
    }
}

impl<T> Source<T> for VecDeque<T> {
    open spec fn contents(&self) -> Seq<T> {
        self@
    }

    fn take(&mut self) -> (r: Option<T>) {
        self.pop_front()
    }
}

impl<T> Sink<T> for VecDeque<T> {
    open spec fn contents(&self) -> Seq<T> {
        self@
    }

    fn put(&mut self, thing: T) {
        self.push_back(thing);
    }
}

} // verus!
