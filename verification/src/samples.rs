//! The building blocks of the sample programs.
//!
//! A sample program is a small function with one lifetime error. It is
//! written to be analysed, not to be run. Its regions are tied together by
//! handing references through the functions of this module: what goes into
//! `foo`, `bar` or `foobar` comes out again, so the region of the result
//! depends on the region of the argument, and `take` uses a value, which
//! keeps the value live up to this use.

use vstd::prelude::*;

verus! {

/// Hands back what it is given.
pub fn foo<T>(p: T) -> (r: T)
    ensures
        r == p,
{
    p
}

/// Hands back what it is given.
pub fn bar<T>(p: T) -> (r: T)
    ensures
        r == p,
{
    p
}

/// Hands back what it is given.
pub fn foobar<T>(p: T) -> (r: T)
    ensures
        r == p,
{
    p
}

/// Uses a value, and so ends its life.
pub fn take<T>(p: T) {
}

/// An action that needs unique access to `x`; it leaves `x` as it is.
pub fn inside_closure(x: &mut i32)
    ensures
        *final(x) == *old(x),
{
}

/// An action that needs unique access to `x`; it leaves `x` as it is.
pub fn outside_closure(x: &mut i32)
    ensures
        *final(x) == *old(x),
{
}

/// A counter.
pub struct Cnt {
    /// How far the counter has come.
    pub x: i32,
}

impl Cnt {
    /// Counts one up.
    pub fn inc(&mut self)
        requires
            old(self).x < i32::MAX,
        ensures
            final(self).x == old(self).x + 1,
    {
        self.x += 1;
    }

    /// Whether the counter is below ten.
    pub fn chk(&self) -> (below: bool)
        ensures
            below == (self.x < 10),
    {
        return self.x < 10;
    }
}

} // verus!
