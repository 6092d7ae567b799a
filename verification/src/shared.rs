//! A handle that several share, and that only one of them gets.
use vstd::prelude::*;

verus! {

/// The lock inside a mutex of `parking_lot`.
#[verifier::external_type_specification]
#[verifier::external_body]
pub struct ExRawMutex(parking_lot::RawMutex);

/// The mutex that `parking_lot::Mutex` stands for.
#[verifier::external_type_specification]
#[verifier::external_body]
#[verifier::reject_recursive_types(R)]
#[verifier::reject_recursive_types(T)]
pub struct ExMutex<R, T: ?Sized>(parking_lot::lock_api::Mutex<R, T>);

/// A handle in a mutex that several share. Only [`shared`] makes one, and only [`take_shared`] looks
/// into it, so it holds that handle or nothing.
#[verifier::reject_recursive_types(Handle)]
pub struct Shared<Handle> {
    mutex: parking_lot::Mutex<Option<Handle>>,
    handle: Ghost<Handle>,
}

impl<Handle> Shared<Handle> {
    /// The handle that was put in.
    pub closed spec fn handle(self) -> Handle {
        self.handle@
    }
}

/// A handle that was taken out of where it was shared. Only [`take_shared`] hands one out.
#[verifier::reject_recursive_types(Handle)]
pub struct Claimed<Handle> {
    handle: Handle,
    source: Ghost<Shared<Handle>>,
}

impl<Handle> Claimed<Handle> {
    /// The handle.
    pub closed spec fn handle(self) -> Handle {
        self.handle
    }

    /// Where the handle was taken out of.
    pub closed spec fn source(self) -> Shared<Handle> {
        self.source@
    }

    /// The handle.
    pub fn into_handle(self) -> (handle: Handle)
        ensures
            handle == self.handle(),
    {
        self.handle
    }
}

/// The receipt for having found no handle any more. Only [`take_shared`] issues one.
#[verifier::reject_recursive_types(Handle)]
pub struct Missed<Handle> {
    source: Ghost<Shared<Handle>>,
}

impl<Handle> Missed<Handle> {
    /// Where the handle was gone from.
    pub closed spec fn source(self) -> Shared<Handle> {
        self.source@
    }
}

/// Calls `parking_lot::Mutex::new` on `handle`, and notes which handle that was.
#[verifier::external_body]
pub(crate) fn shared<Handle>(handle: Handle) -> (slot: Shared<Handle>)
    ensures
        slot.handle() == handle,
{
    let noted = Ghost(handle);
    Shared { mutex: parking_lot::Mutex::new(Some(handle)), handle: noted }
}

/// Calls `parking_lot::Mutex::lock` and takes out what the mutex holds, which is the handle that was
/// put in or nothing. Whether another clone has taken it before is up to the threads that share it,
/// so that is not said, but the result tells what was found, and where.
#[verifier::external_body]
pub(crate) fn take_shared<Handle>(slot: &Shared<Handle>) -> (found: Result<
    Claimed<Handle>,
    Missed<Handle>,
>)
    ensures
        match found {
            Ok(claimed) => claimed.source() == *slot && claimed.handle() == slot.handle(),
            Err(missed) => missed.source() == *slot,
        },
{
    let taken = slot.mutex.lock().take();
    taken.map(|handle| Claimed { handle, source: Ghost(*slot) }).ok_or(
        Missed { source: Ghost(*slot) },
    )
}

} // verus!
