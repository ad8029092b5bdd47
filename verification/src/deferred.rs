//! A result that a task in the background works out.
use vstd::prelude::*;

verus! {

/// The result of a task, or the handle by which to wait for it.
pub enum Deferred<R, H> {
    Finished(R),
    Pending(Option<H>),
}

/// What to do before the result of a task can be used.
pub enum Wait<H> {
    /// Nothing. The result is there.
    Finished,
    /// Wait for the task with this handle, and hand its result to [`Deferred::finish`].
    Join(H),
    /// Nothing. Somebody has waited for the task, and no result came of it.
    AlreadyTaken,
}

impl<R, H> Deferred<R, H> {
    /// What to do before the result can be used.
    pub open spec fn wanted(self) -> Wait<H> {
        match self {
            Deferred::Finished(_) => Wait::Finished,
            Deferred::Pending(Some(handle)) => Wait::Join(handle),
            Deferred::Pending(None) => Wait::AlreadyTaken,
        }
    }

    /// What is left while somebody waits for the task.
    pub open spec fn taken(self) -> Self {
        match self {
            Deferred::Finished(_) => self,
            Deferred::Pending(_) => Deferred::Pending(None),
        }
    }

    /// The result, where it is there.
    pub open spec fn result(self) -> Option<R> {
        match self {
            Deferred::Finished(r) => Some(r),
            Deferred::Pending(_) => None,
        }
    }

    /// Defers to the task with this handle, which has been spawned.
    pub fn spawn(handle: H) -> (res: Self)
        ensures
            res == Deferred::<R, H>::Pending(Some(handle)),
    {
        Deferred::Pending(Some(handle))
    }

    /// What to do before the result can be used. The handle is given out once.
    pub fn wait(&mut self) -> (res: Wait<H>)
        ensures
            res == old(self).wanted(),
            *final(self) == old(self).taken(),
    {
        match self {
            Deferred::Finished(_) => Wait::Finished,
            Deferred::Pending(handle) => match handle.take() {
                Some(handle) => Wait::Join(handle),
                None => Wait::AlreadyTaken,
            },
        }
    }

    /// Stores the result for future calls.
    pub fn finish(&mut self, r: R)
        ensures
            *final(self) == Deferred::<R, H>::Finished(r),
    {
        *self = Deferred::Finished(r);
    }

    /// Get a mutable reference to the result if the deferred task has already finished.
    pub fn as_mut(&mut self) -> (res: Option<&mut R>)
        ensures
            match res {
                Some(r) => *old(self) == Deferred::<R, H>::Finished(*r) && *final(self)
                    == Deferred::<R, H>::Finished(*final(r)),
                None => *old(self) is Pending && *final(self) == *old(self),
            },
    {
        match self {
            Deferred::Finished(r) => Some(r),
            Deferred::Pending(_) => None,
        }
    }

    /// Get a reference to the result if the deferred task has already finished.
    ///
    /// If the task is still pending, return None.
    /// This does not wait for the task and will not change the state of the deferred result.
    pub fn as_ref(&self) -> (res: Option<&R>)
        ensures
            match res {
                Some(r) => self.result() == Some(*r),
                None => self.result() is None,
            },
    {
        match self {
            Deferred::Finished(r) => Some(r),
            Deferred::Pending(_) => None,
        }
    }
}

/// A task is waited for once: its handle is not given out again, whether or not a result came of
/// it, and a result that is there stays.
pub proof fn waited_for_once<R, H>(deferred: Deferred<R, H>, r: R)
    ensures
        !(deferred.taken().wanted() is Join),
        deferred.wanted() is Join ==> deferred.taken().wanted() is AlreadyTaken,
        deferred.taken().result() == deferred.result(),
        Deferred::<R, H>::Finished(r).wanted() is Finished,
        Deferred::<R, H>::Finished(r).taken().result() == Some(r),
{
}

/// A task that was spawned is waited for by its own handle, and has no result before it is
/// finished.
pub proof fn spawned_task_is_joined<R, H>(handle: H)
    ensures
        Deferred::<R, H>::Pending(Some(handle)).wanted() == Wait::Join(handle),
        Deferred::<R, H>::Pending(Some(handle)).result() is None,
{
}

} // verus!
