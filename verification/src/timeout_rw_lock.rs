//! Sequential model of a bounded-wait reader/writer lock.
//!
//! The wrapped aggregate is guarded by reader/writer mutual exclusion whose
//! acquisitions report `Timeout` instead of blocking indefinitely. The model
//! collapses "waited past the timeout" into "the lock is contended when the
//! timeout expires": an acquisition that finds the lock held by a
//! conflicting party fails with `Timeout` and changes nothing, so the
//! parties already holding the lock are never disturbed.

use vstd::prelude::*;

verus! {

/// A bounded wait expired before the lock could be taken.
#[derive(Clone, Copy, PartialEq, Eq, Structural, Debug)]
pub enum LockError {
    Timeout,
}

/// Reader/writer lock word plus the guarded value.
pub struct TimeoutRwLock<T> {
    pub readers: u64,
    pub writer: bool,
    pub value: T,
}

/// A read acquisition conflicts only with a held writer.
pub open spec fn read_blocked<T>(l: TimeoutRwLock<T>) -> bool {
    l.writer || l.readers == u64::MAX
}

/// A write acquisition conflicts with any holder.
pub open spec fn write_blocked<T>(l: TimeoutRwLock<T>) -> bool {
    l.writer || l.readers > 0
}

impl<T> TimeoutRwLock<T> {
    /// A free lock around a value.
    pub fn new(value: T) -> (r: Self)
        ensures
            r.readers == 0,
            !r.writer,
            r.value == value,
    {
        TimeoutRwLock { readers: 0, writer: false, value }
    }

    /// Take the read side within the bounded wait: fails with `Timeout`
    /// exactly when a writer holds the lock when the wait expires (or the
    /// reader count is saturated), and then changes nothing.
    pub fn acquire_read(&mut self) -> (r: Result<(), LockError>)
        ensures
            read_blocked(*old(self)) ==> r == Err::<(), LockError>(LockError::Timeout)
                && *final(self) == *old(self),
            !read_blocked(*old(self)) ==> r == Ok::<(), LockError>(())
                && final(self).readers == old(self).readers + 1
                && final(self).writer == old(self).writer
                && final(self).value == old(self).value,
    {
        if self.writer || self.readers == u64::MAX {
            Err(LockError::Timeout)
        } else {
            self.readers = self.readers + 1;
            Ok(())
        }
    }

    /// Release the read side.
    pub fn release_read(&mut self)
        requires
            old(self).readers > 0,
        ensures
            final(self).readers == old(self).readers - 1,
            final(self).writer == old(self).writer,
            final(self).value == old(self).value,
    {
        self.readers = self.readers - 1;
    }

    /// Take the write side within the bounded wait: fails with `Timeout`
    /// exactly when any holder (reader or writer) is present when the wait
    /// expires, and then changes nothing — in particular the readers that
    /// held the lock keep it undisturbed.
    pub fn acquire_write(&mut self) -> (r: Result<(), LockError>)
        ensures
            write_blocked(*old(self)) ==> r == Err::<(), LockError>(LockError::Timeout)
                && *final(self) == *old(self),
            !write_blocked(*old(self)) ==> r == Ok::<(), LockError>(())
                && final(self).writer
                && final(self).readers == 0
                && final(self).value == old(self).value,
    {
        if self.writer || self.readers > 0 {
            Err(LockError::Timeout)
        } else {
            self.writer = true;
            Ok(())
        }
    }

    /// Release the write side.
    pub fn release_write(&mut self)
        requires
            old(self).writer,
        ensures
            !final(self).writer,
            final(self).readers == old(self).readers,
            final(self).value == old(self).value,
    {
        self.writer = false;
    }
}

/// Law: a write acquisition that expires on a lock held only by readers
/// returns `Timeout`, leaves the lock word untouched, and the readers'
/// admission condition is exactly what it was — concurrent readers are
/// never blocked by the failed writer.
pub proof fn lemma_write_timeout_spares_readers<T>(l: TimeoutRwLock<T>)
    requires
        l.readers > 0,
        !l.writer,
    ensures
        write_blocked(l),
        l.readers < u64::MAX ==> !read_blocked(l),
{
}

} // verus!
