//! Shared handles to state that background workers and the main thread both
//! reach: shared ownership around a lock. Access never waits and never panics:
//! when the lock cannot be taken right away the handle says so with `None`, and
//! the caller decides whether to try again.

use vstd::prelude::*;
use std::cell::{Ref, RefCell, RefMut};
use std::rc::Rc;
use std::sync::{Arc, RwLock, RwLockReadGuard, RwLockWriteGuard};

verus! {

#[verifier::external_type_specification]
#[verifier::external_body]
#[verifier::reject_recursive_types(T)]
pub struct ExRwLock<T: ?Sized>(RwLock<T>);

#[verifier::external_type_specification]
#[verifier::external_body]
#[verifier::reject_recursive_types(T)]
pub struct ExRwLockReadGuard<'a, T: ?Sized>(RwLockReadGuard<'a, T>);

#[verifier::external_type_specification]
#[verifier::external_body]
#[verifier::reject_recursive_types(T)]
pub struct ExRwLockWriteGuard<'a, T: ?Sized + 'a>(RwLockWriteGuard<'a, T>);

#[verifier::external_type_specification]
#[verifier::external_body]
#[verifier::reject_recursive_types(T)]
pub struct ExRefCell<T: ?Sized>(RefCell<T>);

#[verifier::external_type_specification]
#[verifier::external_body]
#[verifier::reject_recursive_types(T)]
pub struct ExRef<'b, T: ?Sized>(Ref<'b, T>);

#[verifier::external_type_specification]
#[verifier::external_body]
#[verifier::reject_recursive_types(T)]
pub struct ExRefMut<'b, T: ?Sized + 'b>(RefMut<'b, T>);

/// Relies on std's RwLock::new: a new, unlocked lock around the value.
#[verifier::external_body]
fn lock_new<T>(value: T) -> (r: RwLock<T>) {
    RwLock::new(value)
}

/// Relies on std's RwLock::try_read, which does not block: shared access, or
/// `None` when a writer holds the lock or the lock is poisoned (a writer
/// panicked while holding it).
#[verifier::external_body]
fn lock_try_read<T>(lock: &RwLock<T>) -> (r: Option<RwLockReadGuard<'_, T>>) {
    match lock.try_read() {
        Ok(guard) => Some(guard),
        Err(_) => None,
    }
}

/// Relies on std's RwLock::try_write, which does not block: exclusive access,
/// or `None` when anyone holds the lock or the lock is poisoned.
#[verifier::external_body]
fn lock_try_write<T>(lock: &RwLock<T>) -> (r: Option<RwLockWriteGuard<'_, T>>) {
    match lock.try_write() {
        Ok(guard) => Some(guard),
        Err(_) => None,
    }
}

/// Relies on std's RefCell::new: a new cell around the value, not borrowed.
#[verifier::external_body]
fn cell_new<T>(value: T) -> (r: RefCell<T>) {
    RefCell::new(value)
}

/// Relies on std's RefCell::try_borrow, which does not panic: shared access,
/// or `None` while the value is mutably borrowed.
#[verifier::external_body]
fn cell_try_borrow<T>(cell: &RefCell<T>) -> (r: Option<Ref<'_, T>>) {
    match cell.try_borrow() {
        Ok(r) => Some(r),
        Err(_) => None,
    }
}

/// Relies on std's RefCell::try_borrow_mut, which does not panic: exclusive
/// access, or `None` while the value is borrowed.
#[verifier::external_body]
fn cell_try_borrow_mut<T>(cell: &RefCell<T>) -> (r: Option<RefMut<'_, T>>) {
    match cell.try_borrow_mut() {
        Ok(r) => Some(r),
        Err(_) => None,
    }
}

/// A value shared between threads: every clone of the handle reaches the same
/// value through one lock.
#[verifier::reject_recursive_types(T)]
pub struct MtResource<T: Send + Sync> {
    pub resource: Arc<RwLock<T>>,
}

impl<T: Send + Sync> MtResource<T> {
    pub fn new(resource: T) -> (r: MtResource<T>) {
        MtResource { resource: Arc::new(lock_new(resource)) }
    }

    /// Shared access to the value; `None` while it is being written or after a
    /// writer panicked.
    pub fn get(&self) -> Option<RwLockReadGuard<'_, T>> {
        lock_try_read(&self.resource)
    }

    /// Exclusive access to the value; `None` while anyone else holds it or
    /// after a writer panicked.
    pub fn get_mut(&self) -> Option<RwLockWriteGuard<'_, T>> {
        lock_try_write(&self.resource)
    }
}

/// A boxed system shared between threads.
#[verifier::reject_recursive_types(T)]
pub struct MtSystem<T: Send + Sync> {
    pub system: Arc<RwLock<Box<T>>>,
}

impl<T: Send + Sync> MtSystem<T> {
    pub fn new(system: Box<T>) -> (r: MtSystem<T>) {
        MtSystem { system: Arc::new(lock_new(system)) }
    }

    /// Shared access to the system; `None` while it is being written or after
    /// a writer panicked.
    pub fn get(&self) -> Option<RwLockReadGuard<'_, Box<T>>> {
        lock_try_read(&self.system)
    }

    /// Exclusive access to the system; `None` while anyone else holds it or
    /// after a writer panicked.
    pub fn get_mut(&self) -> Option<RwLockWriteGuard<'_, Box<T>>> {
        lock_try_write(&self.system)
    }
}

/// A value shared within the main thread.
#[verifier::reject_recursive_types(T)]
pub struct StResource<T> {
    pub resource: Rc<RwLock<T>>,
}

impl<T> StResource<T> {
    pub fn new(resource: T) -> (r: StResource<T>) {
        StResource { resource: Rc::new(lock_new(resource)) }
    }

    /// Shared access to the value; `None` while it is being written or after a
    /// writer panicked.
    pub fn get(&self) -> Option<RwLockReadGuard<'_, T>> {
        lock_try_read(&self.resource)
    }

    /// Exclusive access to the value; `None` while anyone else holds it or
    /// after a writer panicked.
    pub fn get_mut(&self) -> Option<RwLockWriteGuard<'_, T>> {
        lock_try_write(&self.resource)
    }
}

/// A boxed system shared within the main thread.
#[verifier::reject_recursive_types(T)]
pub struct StSystem<T> {
    pub system: Rc<RefCell<Box<T>>>,
}

impl<T> StSystem<T> {
    pub fn new(system: Box<T>) -> (r: StSystem<T>) {
        StSystem { system: Rc::new(cell_new(system)) }
    }

    /// Shared access to the system; `None` while it is mutably borrowed.
    pub fn get(&self) -> Option<Ref<'_, Box<T>>> {
        cell_try_borrow(&self.system)
    }

    /// Exclusive access to the system; `None` while it is borrowed.
    pub fn get_mut(&self) -> Option<RefMut<'_, Box<T>>> {
        cell_try_borrow_mut(&self.system)
    }
}

} // verus!
