//! The guards that a reader/writer lock hands out: a read guard gives shared
//! access to the value the lock protects, a write guard exclusive access.

use std::ops::Deref;
use std::ops::DerefMut;
use vstd::prelude::*;

verus! {

/// Shared access to a value for as long as the guard lives.
pub struct ReadGuard<'a, T> {
    /// The value the guard gives access to.
    pub value: &'a T,
}

/// Exclusive access to a value for as long as the guard lives.
pub struct WriteGuard<'a, T> {
    /// The value the guard gives access to.
    pub value: &'a mut T,
}

impl<'a, T> View for ReadGuard<'a, T> {
    type V = T;

    /// The guarded value.
    open spec fn view(&self) -> T {
        *self.value
    }
}

impl<'a, T> View for WriteGuard<'a, T> {
    type V = T;

    /// The guarded value as it is now.
    open spec fn view(&self) -> T {
        *self.value
    }
}

impl<'a, T> ReadGuard<'a, T> {
    /// A guard for `value`.
    pub fn new(value: &'a T) -> (guard: Self)
        ensures
            guard@ == *value,
    {
        ReadGuard { value }
    }
}

impl<'a, T> Deref for ReadGuard<'a, T> {
    type Target = T;

    /// The guarded value.
    fn deref(&self) -> (target: &T)
        ensures
            *target == self@,
    {
        self.value
    }
}

impl<'a, T> WriteGuard<'a, T> {
    /// A guard for `value`: what is written through the guard is what `value`
    /// holds once the guard is gone.
    pub fn new(value: &'a mut T) -> (guard: Self)
        ensures
            guard@ == *old(value),
            *final(guard.value) == *final(value),
    {
        WriteGuard { value }
    }
}

impl<'a, T> Deref for WriteGuard<'a, T> {
    type Target = T;

    /// The guarded value as it is now.
    fn deref(&self) -> (target: &T)
        ensures
            *target == self@,
    {
        &*self.value
    }
}

impl<'a, T> DerefMut for WriteGuard<'a, T> {
    /// The guarded value, to be changed in place: the guard holds afterwards
    /// what was written, and still guards the same value.
    fn deref_mut(&mut self) -> (target: &mut T)
        ensures
            *target == old(self)@,
            final(self)@ == *final(target),
            *final(final(self).value) == *final(old(self).value),
    {
        &mut *self.value
    }
}

} // verus!
